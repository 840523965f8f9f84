//! The tools offered in a conversation: the definitions to advertise, and dispatch by name.

use vstd::prelude::*;

use crate::json::{model_of, Json, JsonModel};
use crate::llm::client::ToolDefinition;
use crate::text::{same_text, views};
use crate::tools::calculator;
use crate::tools::file_delete;
use crate::tools::file_list;
use crate::tools::file_read;
use crate::tools::file_upzip;
use crate::tools::read_image;
use crate::tools::tool::Tool;
use crate::tools::web_search;

verus! {

/// The tools that need nothing but this program.
#[derive(Debug, Clone, Copy, PartialEq, Eq, Structural)]
pub enum Builtin {
    Calculator,
    WebSearch,
    DeleteFile,
    ListFiles,
    ReadFile,
    UnzipFile,
    ReadImage,
}

/// The name of a built-in tool.
pub open spec fn builtin_name(tool: Builtin) -> Seq<char> {
    match tool {
        Builtin::Calculator => calculator::NAME@,
        Builtin::WebSearch => web_search::NAME@,
        Builtin::DeleteFile => file_delete::NAME@,
        Builtin::ListFiles => file_list::NAME@,
        Builtin::ReadFile => file_read::NAME@,
        Builtin::UnzipFile => file_upzip::NAME@,
        Builtin::ReadImage => read_image::NAME@,
    }
}

/// What is said of a built-in tool.
pub open spec fn builtin_description(tool: Builtin) -> Seq<char> {
    match tool {
        Builtin::Calculator => calculator::definition::DESCRIPTION@,
        Builtin::WebSearch => web_search::definition::DESCRIPTION@,
        Builtin::DeleteFile => file_delete::DESCRIPTION@,
        Builtin::ListFiles => file_list::DESCRIPTION@,
        Builtin::ReadFile => file_read::DESCRIPTION@,
        Builtin::UnzipFile => file_upzip::DESCRIPTION@,
        Builtin::ReadImage => read_image::DESCRIPTION@,
    }
}

/// Every built-in tool, in the order they are registered.
pub open spec fn builtins() -> Seq<Builtin> {
    seq![
        Builtin::Calculator,
        Builtin::WebSearch,
        Builtin::DeleteFile,
        Builtin::ListFiles,
        Builtin::ReadFile,
        Builtin::UnzipFile,
        Builtin::ReadImage,
    ]
}

/// The built-in tool of a name.
pub open spec fn builtin_named(name: Seq<char>) -> Option<Builtin> {
    if exists|tool: Builtin| #[trigger] builtin_name(tool) == name {
        Some(choose|tool: Builtin| #[trigger] builtin_name(tool) == name)
    } else {
        None
    }
}

/// No two built-in tools share a name.
pub proof fn builtin_names_are_distinct(left: Builtin, right: Builtin)
    ensures
        builtin_name(left) == builtin_name(right) ==> left == right,
{
    reveal_strlit("calculator");
    reveal_strlit("web_search");
    reveal_strlit("delete_file");
    reveal_strlit("list_files");
    reveal_strlit("read_file");
    reveal_strlit("unzip_file");
    reveal_strlit("read_image");
    assert(calculator::NAME@.len() == 10 && calculator::NAME@[0] == 'c');
    assert(web_search::NAME@.len() == 10 && web_search::NAME@[0] == 'w');
    assert(file_delete::NAME@.len() == 11);
    assert(file_list::NAME@.len() == 10 && file_list::NAME@[0] == 'l');
    assert(file_read::NAME@.len() == 9);
    assert(file_upzip::NAME@.len() == 10 && file_upzip::NAME@[0] == 'u');
    assert(read_image::NAME@.len() == 10 && read_image::NAME@[0] == 'r');
}

impl Builtin {
    /// The tool's name.
    pub fn name(self) -> (name: &'static str)
        ensures
            name@ == builtin_name(self),
    {
        match self {
            Builtin::Calculator => calculator::NAME,
            Builtin::WebSearch => web_search::NAME,
            Builtin::DeleteFile => file_delete::NAME,
            Builtin::ListFiles => file_list::NAME,
            Builtin::ReadFile => file_read::NAME,
            Builtin::UnzipFile => file_upzip::NAME,
            Builtin::ReadImage => read_image::NAME,
        }
    }

    /// What is said of the tool.
    pub fn description(self) -> (text: &'static str)
        ensures
            text@ == builtin_description(self),
    {
        match self {
            Builtin::Calculator => calculator::definition::DESCRIPTION,
            Builtin::WebSearch => web_search::definition::DESCRIPTION,
            Builtin::DeleteFile => file_delete::DESCRIPTION,
            Builtin::ListFiles => file_list::DESCRIPTION,
            Builtin::ReadFile => file_read::DESCRIPTION,
            Builtin::UnzipFile => file_upzip::DESCRIPTION,
            Builtin::ReadImage => read_image::DESCRIPTION,
        }
    }

    /// Every built-in tool, in the order they are registered.
    pub fn all() -> (tools: Vec<Builtin>)
        ensures
            tools@ == builtins(),
    {
        let tools = vec![
            Builtin::Calculator,
            Builtin::WebSearch,
            Builtin::DeleteFile,
            Builtin::ListFiles,
            Builtin::ReadFile,
            Builtin::UnzipFile,
            Builtin::ReadImage,
        ];
        assert(tools@ =~= builtins());
        tools
    }

    /// The built-in tool of a name.
    pub fn named(name: &str) -> (tool: Option<Builtin>)
        ensures
            tool == builtin_named(name@),
    {
        let tools = Builtin::all();
        let mut i: usize = 0;
        while i < tools.len()
            invariant
                i <= tools@.len(),
                tools@ == builtins(),
                forall|k: int| 0 <= k < i ==> builtin_name(#[trigger] builtins()[k]) != name@,
            decreases tools@.len() - i,
        {
            let tool = tools[i];
            if same_text(tool.name(), name) {
                proof {
                    builtin_names_are_distinct(tool, builtin_named(name@)->Some_0);
                }
                return Some(tool);
            }
            i += 1;
        }
        proof {
            assert forall|tool: Builtin| #[trigger] builtin_name(tool) != name@ by {
                let k: int = match tool {
                    Builtin::Calculator => 0,
                    Builtin::WebSearch => 1,
                    Builtin::DeleteFile => 2,
                    Builtin::ListFiles => 3,
                    Builtin::ReadFile => 4,
                    Builtin::UnzipFile => 5,
                    Builtin::ReadImage => 6,
                };
                assert(builtins()[k] == tool);
            }
        }
        None
    }
}

/// A registered tool: a built-in one with the schema of its arguments, or one that was added,
/// with the handle it is run by.
#[derive(Debug, PartialEq, Eq)]
pub enum AnyTool<T> {
    Builtin { tool: Builtin, parameters: Json },
    Added { definition: ToolDefinition, handle: T },
}

impl<T> Tool for AnyTool<T> {
    open spec fn called(&self) -> Seq<char> {
        match self {
            AnyTool::Builtin { tool, .. } => builtin_name(*tool),
            AnyTool::Added { definition, .. } => definition.name@,
        }
    }

    open spec fn described(&self) -> Seq<char> {
        match self {
            AnyTool::Builtin { tool, .. } => builtin_description(*tool),
            AnyTool::Added { definition, .. } => definition.description@,
        }
    }

    open spec fn schema(&self) -> JsonModel {
        match self {
            AnyTool::Builtin { parameters, .. } => model_of(*parameters),
            AnyTool::Added { definition, .. } => model_of(definition.parameters),
        }
    }

    fn name(&self) -> (name: &str) {
        match self {
            AnyTool::Builtin { tool, .. } => tool.name(),
            AnyTool::Added { definition, .. } => definition.name.as_str(),
        }
    }

    fn description(&self) -> (text: &str) {
        match self {
            AnyTool::Builtin { tool, .. } => tool.description(),
            AnyTool::Added { definition, .. } => definition.description.as_str(),
        }
    }

    fn parameters(&self) -> (schema: Json) {
        match self {
            AnyTool::Builtin { parameters, .. } => parameters.duplicate(),
            AnyTool::Added { definition, .. } => definition.parameters.duplicate(),
        }
    }
}

/// Why a registry is not built.
#[derive(Debug, PartialEq, Eq)]
pub enum RegistryError {
    /// No built-in tool has this name.
    UnknownTool(String),
    /// A tool of this name is registered already.
    DuplicateName(String),
}

impl RegistryError {
    /// What is said of it.
    pub fn message(&self) -> (text: String)
        ensures
            text@ == match *self {
                RegistryError::UnknownTool(name) => "unknown tool `"@ + name@ + "`"@,
                RegistryError::DuplicateName(name) => "duplicate tool name `"@ + name@
                    + "`; rename it or drop one of the sources"@,
            },
    {
        match self {
            RegistryError::UnknownTool(name) => {
                let mut text = "unknown tool `".to_owned();
                text.append(name.as_str());
                text.append("`");
                text
            },
            RegistryError::DuplicateName(name) => {
                let mut text = "duplicate tool name `".to_owned();
                text.append(name.as_str());
                text.append("`; rename it or drop one of the sources");
                text
            },
        }
    }
}

/// What becomes of a list of names: the built-in tools they name, or the first name that is
/// unknown or given twice.
pub enum Selection {
    Tools(Seq<Builtin>),
    Unknown(Seq<char>),
    Repeated(Seq<char>),
}

/// What becomes of a list of names.
pub open spec fn selection(names: Seq<Seq<char>>) -> Selection
    decreases names.len(),
{
    if names.len() == 0 {
        Selection::Tools(seq![])
    } else {
        match selection(names.drop_last()) {
            Selection::Tools(tools) => match builtin_named(names.last()) {
                None => Selection::Unknown(names.last()),
                Some(tool) => if tools.contains(tool) {
                    Selection::Repeated(names.last())
                } else {
                    Selection::Tools(tools.push(tool))
                },
            },
            refused => refused,
        }
    }
}

/// Whether `tool` is the built-in one, with the schema of its own where it has one, else one
/// that `schema_of` gives for it.
pub open spec fn is_builtin<T, F: Fn(Builtin) -> Json>(
    tool: AnyTool<T>,
    which: Builtin,
    schema_of: F,
) -> bool {
    tool matches AnyTool::Builtin { tool: t, parameters } && t == which && match which {
        Builtin::Calculator => model_of(parameters) == calculator::definition::parameters_model(),
        Builtin::WebSearch => model_of(parameters) == web_search::definition::parameters_model(),
        _ => schema_of.ensures((which,), parameters),
    }
}

/// Whether `tools` are exactly the given built-in ones.
pub open spec fn are_builtins<T, F: Fn(Builtin) -> Json>(
    tools: Seq<AnyTool<T>>,
    which: Seq<Builtin>,
    schema_of: F,
) -> bool {
    &&& tools.len() == which.len()
    &&& forall|i: int| 0 <= i < tools.len() ==> is_builtin(#[trigger] tools[i], which[i], schema_of)
}

/// The names of some tools.
pub open spec fn names_of<T>(tools: Seq<AnyTool<T>>) -> Seq<Seq<char>> {
    tools.map_values(|tool: AnyTool<T>| tool.called())
}

/// Whether a tool of this name is among some tools.
pub open spec fn offers<T>(tools: Seq<AnyTool<T>>, name: Seq<char>) -> bool {
    names_of(tools).contains(name)
}

/// Some tools and, behind them, of some more each one whose name is not taken yet.
pub open spec fn joined_by<T>(tools: Seq<AnyTool<T>>, more: Seq<AnyTool<T>>) -> Seq<AnyTool<T>>
    decreases more.len(),
{
    if more.len() == 0 {
        tools
    } else {
        let before = joined_by(tools, more.drop_last());
        if offers(before, more.last().called()) {
            before
        } else {
            before.push(more.last())
        }
    }
}

/// The names of those of `more` that are passed over, their names being taken.
pub open spec fn passed_over<T>(tools: Seq<AnyTool<T>>, more: Seq<AnyTool<T>>) -> Seq<Seq<char>>
    decreases more.len(),
{
    if more.len() == 0 {
        seq![]
    } else {
        let before = passed_over(tools, more.drop_last());
        if offers(joined_by(tools, more.drop_last()), more.last().called()) {
            before.push(more.last().called())
        } else {
            before
        }
    }
}

/// Whether no name of `more` is taken by `tools` or given twice.
pub open spec fn all_new<T>(tools: Seq<AnyTool<T>>, more: Seq<AnyTool<T>>) -> bool {
    joined_by(tools, more).len() == tools.len() + more.len()
}

/// Whether a definition advertises a tool.
pub open spec fn advertises<T>(definition: ToolDefinition, tool: AnyTool<T>) -> bool {
    &&& definition.name@ == tool.called()
    &&& definition.description@ == tool.described()
    &&& model_of(definition.parameters) == tool.schema()
}

fn parameters_of<F: Fn(Builtin) -> Json>(tool: Builtin, schema_of: &F) -> (parameters: Json)
    requires
        schema_of.requires((tool,)),
    ensures
        match tool {
            Builtin::Calculator => model_of(parameters)
                == calculator::definition::parameters_model(),
            Builtin::WebSearch => model_of(parameters)
                == web_search::definition::parameters_model(),
            _ => schema_of.ensures((tool,), parameters),
        },
{
    match tool {
        Builtin::Calculator => calculator::definition::parameters(),
        Builtin::WebSearch => web_search::definition::parameters(),
        _ => schema_of(tool),
    }
}

/// The tools offered in a conversation.
///
/// Definitions and dispatch come from one list, so a model is never offered a tool that cannot
/// be run, nor can it run one that it was never told about.
#[derive(Debug)]
pub struct ToolRegistry<T> {
    tools: Vec<AnyTool<T>>,
    definitions: Vec<ToolDefinition>,
}

impl<T> ToolRegistry<T> {
    /// The registered tools, in the order they came.
    pub closed spec fn offered(&self) -> Seq<AnyTool<T>> {
        self.tools@
    }

    /// What is advertised.
    pub closed spec fn advertised(&self) -> Seq<ToolDefinition> {
        self.definitions@
    }

    /// Each tool is advertised as it is, and no two share a name.
    pub open spec fn wf(&self) -> bool {
        &&& self.advertised().len() == self.offered().len()
        &&& forall|i: int|
            0 <= i < self.offered().len() ==> advertises(
                #[trigger] self.advertised()[i],
                self.offered()[i],
            )
        &&& forall|i: int, j: int|
            0 <= i < j < self.offered().len() ==> (#[trigger] self.offered()[i]).called()
                != (#[trigger] self.offered()[j]).called()
    }

    /// No tools: a model answers from its own knowledge.
    pub fn empty() -> (registry: Self)
        ensures
            registry.wf(),
            registry.offered() == Seq::<AnyTool<T>>::empty(),
    {
        let registry = ToolRegistry { tools: Vec::new(), definitions: Vec::new() };
        assert(registry.offered() =~= Seq::<AnyTool<T>>::empty());
        registry
    }

    fn position(&self, name: &str) -> (at: Option<usize>)
        ensures
            match at {
                Some(i) => i < self.offered().len() && self.offered()[i as int].called() == name@,
                None => !offers(self.offered(), name@),
            },
    {
        let mut i: usize = 0;
        while i < self.tools.len()
            invariant
                i <= self.tools@.len(),
                forall|k: int| 0 <= k < i ==> (#[trigger] self.tools@[k]).called() != name@,
            decreases self.tools@.len() - i,
        {
            if same_text(self.tools[i].name(), name) {
                return Some(i);
            }
            i += 1;
        }
        proof {
            if offers(self.offered(), name@) {
                let k = choose|k: int|
                    0 <= k < names_of(self.offered()).len() && names_of(self.offered())[k] == name@;
                assert(self.tools@[k].called() == name@);
            }
        }
        None
    }

    /// Whether a tool of this name is registered.
    pub fn contains(&self, name: &str) -> (is: bool)
        ensures
            is == offers(self.offered(), name@),
    {
        match self.position(name) {
            Some(i) => {
                assert(names_of(self.offered())[i as int] == name@);
                true
            },
            None => false,
        }
    }

    /// Register one tool. A name that is taken is refused: dispatch goes by name, so one of the
    /// two could never be reached.
    pub fn add(&mut self, tool: AnyTool<T>) -> (added: Result<(), RegistryError>)
        requires
            old(self).wf(),
        ensures
            final(self).wf(),
            match added {
                Ok(_) => !offers(old(self).offered(), tool.called()) && final(self).offered()
                    == old(self).offered().push(tool),
                Err(error) => {
                    &&& offers(old(self).offered(), tool.called())
                    &&& error matches RegistryError::DuplicateName(name) && name@ == tool.called()
                    &&& *final(self) == *old(self)
                },
            },
    {
        if self.contains(tool.name()) {
            return Err(RegistryError::DuplicateName(tool.name().to_owned()));
        }
        let ghost before = self.offered();
        proof {
            assert forall|k: int| 0 <= k < before.len() implies (#[trigger] before[k]).called()
                != tool.called() by {
                assert(names_of(before)[k] == before[k].called());
            }
        }
        let definition = tool.definition();
        self.definitions.push(definition);
        self.tools.push(tool);
        Ok(())
    }

    /// Register several tools, up to the first whose name is taken.
    pub fn extend(&mut self, tools: Vec<AnyTool<T>>) -> (added: Result<(), RegistryError>)
        requires
            old(self).wf(),
        ensures
            final(self).wf(),
            (added is Ok) == all_new(old(self).offered(), tools@),
            match added {
                Ok(_) => final(self).offered() == old(self).offered() + tools@,
                Err(error) => exists|n: int|
                    0 <= n < tools@.len() && all_new(old(self).offered(), #[trigger] tools@.take(n))
                        && final(self).offered() == old(self).offered() + tools@.take(n)
                        && offers(final(self).offered(), tools@[n].called()) && (error matches
                        RegistryError::DuplicateName(name) && name@ == tools@[n].called()),
            },
    {
        let ghost before = self.offered();
        let ghost given = tools@;
        let mut left = tools;
        let total: usize = left.len();
        let mut n: usize = 0;
        assert(left@ =~= given.skip(0));
        assert(before + given.take(0) =~= before);
        while n < total
            invariant
                n <= total == given.len(),
                before == old(self).offered(),
                given == tools@,
                left@ == given.skip(n as int),
                self.wf(),
                self.offered() == before + given.take(n as int),
                joined_by(before, given.take(n as int)) == before + given.take(n as int),
            decreases total - n,
        {
            let tool = left.remove(0);
            proof {
                assert(tool == given[n as int]);
                assert(left@ =~= given.skip(n + 1));
                assert(given.take(n + 1).drop_last() =~= given.take(n as int));
                assert((before + given.take(n as int)).push(tool) =~= before + given.take(n + 1));
            }
            if let Err(error) = self.add(tool) {
                proof {
                    assert(all_new(before, given.take(n as int)));
                    assert(joined_by(before, given.take(n + 1)).len() == before.len() + n);
                    lemma_joined_bound(before, given, n + 1);
                }
                return Err(error);
            }
            n += 1;
        }
        assert(given.take(n as int) =~= given);
        Ok(())
    }

    /// Register what was discovered, passing over each tool whose name is taken: one bad entry
    /// does not take the rest down. The names passed over are handed back, in order.
    pub fn add_discovered(&mut self, tools: Vec<AnyTool<T>>) -> (skipped: Vec<String>)
        requires
            old(self).wf(),
        ensures
            final(self).wf(),
            final(self).offered() == joined_by(old(self).offered(), tools@),
            views(skipped@) == passed_over(old(self).offered(), tools@),
    {
        let ghost before = self.offered();
        let ghost given = tools@;
        let mut left = tools;
        let total: usize = left.len();
        let mut skipped: Vec<String> = Vec::new();
        let mut n: usize = 0;
        assert(views(skipped@) =~= passed_over(before, given.take(0)));
        assert(left@ =~= given.skip(0));
        while n < total
            invariant
                n <= total == given.len(),
                left@ == given.skip(n as int),
                self.wf(),
                self.offered() == joined_by(before, given.take(n as int)),
                views(skipped@) == passed_over(before, given.take(n as int)),
            decreases total - n,
        {
            let tool = left.remove(0);
            proof {
                assert(tool == given[n as int]);
                assert(left@ =~= given.skip(n + 1));
                let next = given.take(n + 1);
                assert(next.drop_last() =~= given.take(n as int));
                assert(next.last() == tool);
            }
            let ghost passed = views(skipped@);
            match self.add(tool) {
                Err(RegistryError::DuplicateName(name)) => {
                    let ghost said = name@;
                    skipped.push(name);
                    assert(views(skipped@) =~= passed.push(said));
                },
                _ => {},
            }
            n += 1;
        }
        assert(given.take(n as int) =~= given);
        skipped
    }

    /// The built-in tools. Their names are distinct, so it never fails.
    pub fn builtin<F: Fn(Builtin) -> Json>(schema_of: &F) -> (registry: Result<Self, RegistryError>)
        requires
            forall|tool: Builtin| #[trigger] schema_of.requires((tool,)),
        ensures
            registry matches Ok(built) && built.wf() && are_builtins(
                built.offered(),
                builtins(),
                *schema_of,
            ),
    {
        let all = Builtin::all();
        let mut registry: Self = ToolRegistry::empty();
        let mut i: usize = 0;
        while i < all.len()
            invariant
                i <= all@.len(),
                all@ == builtins(),
                registry.wf(),
                are_builtins(registry.offered(), builtins().take(i as int), *schema_of),
                forall|tool: Builtin| #[trigger] schema_of.requires((tool,)),
            decreases all@.len() - i,
        {
            let tool = all[i];
            let parameters = parameters_of(tool, schema_of);
            let ghost before = registry.offered();
            let added = registry.add(AnyTool::Builtin { tool, parameters });
            proof {
                if offers(before, builtin_name(tool)) {
                    let k = choose|k: int|
                        0 <= k < names_of(before).len() && names_of(before)[k] == builtin_name(tool);
                    assert(is_builtin(before[k], builtins().take(i as int)[k], *schema_of));
                    builtin_names_are_distinct(builtins()[k], builtins()[i as int]);
                }
                assert(added is Ok);
            }
            if let Err(error) = added {
                return Err(error);
            }
            i += 1;
        }
        assert(builtins().take(i as int) =~= builtins());
        Ok(registry)
    }

    /// Exactly the named built-in tools, in the order they are named. The first name that is
    /// unknown or given twice is refused.
    pub fn select<F: Fn(Builtin) -> Json>(names: &Vec<String>, schema_of: &F) -> (registry: Result<
        Self,
        RegistryError,
    >)
        requires
            forall|tool: Builtin| #[trigger] schema_of.requires((tool,)),
        ensures
            match registry {
                Ok(built) => selection(views(names@)) matches Selection::Tools(tools) && built.wf()
                    && are_builtins(built.offered(), tools, *schema_of),
                Err(RegistryError::UnknownTool(name)) => selection(views(names@))
                    == Selection::Unknown(name@),
                Err(RegistryError::DuplicateName(name)) => selection(views(names@))
                    == Selection::Repeated(name@),
            },
    {
        let ghost all = views(names@);
        let ghost chosen: Seq<Builtin> = seq![];
        let mut registry: Self = ToolRegistry::empty();
        let mut i: usize = 0;
        while i < names.len()
            invariant
                i <= names@.len(),
                all == views(names@),
                registry.wf(),
                selection(all.take(i as int)) == Selection::Tools(chosen),
                are_builtins(registry.offered(), chosen, *schema_of),
                forall|tool: Builtin| #[trigger] schema_of.requires((tool,)),
            decreases names@.len() - i,
        {
            proof {
                assert(all.take(i + 1).drop_last() =~= all.take(i as int));
                assert(all.take(i + 1).last() == names@[i as int]@);
            }
            let tool = match Builtin::named(names[i].as_str()) {
                Some(tool) => tool,
                None => {
                    proof {
                        lemma_refusal_stands(all, i + 1);
                    }
                    return Err(RegistryError::UnknownTool(names[i].clone()));
                },
            };
            let parameters = parameters_of(tool, schema_of);
            let ghost before = registry.offered();
            let added = registry.add(AnyTool::Builtin { tool, parameters });
            proof {
                lemma_offers_builtin(before, chosen, *schema_of, tool);
                assert(builtin_name(tool) == names@[i as int]@);
            }
            if let Err(error) = added {
                proof {
                    lemma_refusal_stands(all, i + 1);
                }
                return Err(error);
            }
            proof {
                chosen = chosen.push(tool);
            }
            i += 1;
        }
        assert(all.take(i as int) =~= all);
        Ok(registry)
    }

    /// What is advertised to a model: each tool once, in the order they were registered.
    pub fn definitions(&self) -> (definitions: &Vec<ToolDefinition>)
        ensures
            definitions@ == self.advertised(),
    {
        &self.definitions
    }

    /// Whether no tool is registered.
    pub fn is_empty(&self) -> (empty: bool)
        ensures
            empty == (self.offered().len() == 0),
    {
        self.tools.len() == 0
    }

    /// How many tools are registered.
    pub fn len(&self) -> (n: usize)
        ensures
            n == self.offered().len(),
    {
        self.tools.len()
    }

    /// The name of every tool, in the order they were registered.
    pub fn names(&self) -> (names: Vec<String>)
        ensures
            views(names@) == names_of(self.offered()),
    {
        let mut names: Vec<String> = Vec::new();
        let mut i: usize = 0;
        while i < self.tools.len()
            invariant
                i <= self.tools@.len(),
                views(names@) =~= names_of(self.offered()).take(i as int),
            decreases self.tools@.len() - i,
        {
            let ghost before = names@;
            names.push(self.tools[i].name().to_owned());
            assert(views(names@) =~= views(before).push(self.tools@[i as int].called()));
            assert(names_of(self.offered()).take(i + 1) =~= names_of(self.offered()).take(
                i as int,
            ).push(self.tools@[i as int].called()));
            i += 1;
        }
        assert(names_of(self.offered()).take(i as int) =~= names_of(self.offered()));
        names
    }

    /// The tool of a name.
    pub fn get(&self, name: &str) -> (tool: Option<&AnyTool<T>>)
        ensures
            match tool {
                Some(found) => found.called() == name@ && self.offered().contains(*found),
                None => !offers(self.offered(), name@),
            },
    {
        match self.position(name) {
            Some(i) => {
                assert(self.offered()[i as int] == self.tools@[i as int]);
                Some(&self.tools[i])
            },
            None => None,
        }
    }

    /// The tool to run for a call, or the answer to a call of a tool that is not registered: a
    /// call is answered in any case.
    pub fn dispatch(&self, name: &str) -> (tool: Result<&AnyTool<T>, String>)
        ensures
            match tool {
                Ok(found) => found.called() == name@ && self.offered().contains(*found),
                Err(text) => !offers(self.offered(), name@) && text@ == "Error: unknown tool `"@
                    + name@ + "`"@,
            },
    {
        match self.get(name) {
            Some(found) => Ok(found),
            None => {
                let mut text = "Error: unknown tool `".to_owned();
                text.append(name);
                text.append("`");
                Err(text)
            },
        }
    }
}

/// The answer to a call: what the tool gave, or the text of its error, so that a model can
/// correct itself.
pub fn answer(outcome: Result<String, String>) -> (text: String)
    ensures
        text@ == match outcome {
            Ok(output) => output@,
            Err(error) => "Error: "@ + error@,
        },
{
    match outcome {
        Ok(output) => output,
        Err(error) => {
            let mut text = "Error: ".to_owned();
            text.append(error.as_str());
            text
        },
    }
}

proof fn lemma_joined_bound<T>(tools: Seq<AnyTool<T>>, more: Seq<AnyTool<T>>, n: int)
    requires
        0 <= n <= more.len(),
    ensures
        joined_by(tools, more).len() <= joined_by(tools, more.take(n)).len() + (more.len() - n),
    decreases more.len(),
{
    if n == more.len() {
        assert(more.take(n) =~= more);
    } else {
        lemma_joined_bound(tools, more.drop_last(), n);
        assert(more.drop_last().take(n) =~= more.take(n));
    }
}

proof fn lemma_refusal_stands(names: Seq<Seq<char>>, n: int)
    requires
        0 <= n <= names.len(),
        !(selection(names.take(n)) is Tools),
    ensures
        selection(names) == selection(names.take(n)),
    decreases names.len(),
{
    if n == names.len() {
        assert(names.take(n) =~= names);
    } else {
        assert(names.drop_last().take(n) =~= names.take(n));
        lemma_refusal_stands(names.drop_last(), n);
    }
}

proof fn lemma_offers_builtin<T, F: Fn(Builtin) -> Json>(
    tools: Seq<AnyTool<T>>,
    which: Seq<Builtin>,
    schema_of: F,
    tool: Builtin,
)
    requires
        are_builtins(tools, which, schema_of),
    ensures
        offers(tools, builtin_name(tool)) == which.contains(tool),
{
    if offers(tools, builtin_name(tool)) {
        let k = choose|k: int|
            0 <= k < names_of(tools).len() && names_of(tools)[k] == builtin_name(tool);
        assert(is_builtin(tools[k], which[k], schema_of));
        builtin_names_are_distinct(which[k], tool);
    }
    if which.contains(tool) {
        let k = choose|k: int| 0 <= k < which.len() && which[k] == tool;
        assert(is_builtin(tools[k], which[k], schema_of));
        assert(names_of(tools)[k] == builtin_name(tool));
    }
}

/// A model is told of exactly the tools that can be dispatched to, and each name leads to one
/// tool.
pub proof fn what_is_advertised_can_be_run<T>(registry: ToolRegistry<T>, name: Seq<char>)
    requires
        registry.wf(),
    ensures
        offers(registry.offered(), name) == (exists|i: int|
            0 <= i < registry.advertised().len() && (#[trigger] registry.advertised()[i]).name@
                == name),
        forall|i: int, j: int|
            0 <= i < registry.offered().len() && 0 <= j < registry.offered().len() && (
            #[trigger] registry.offered()[i]).called() == name && (
            #[trigger] registry.offered()[j]).called() == name ==> i == j,
{
    let tools = registry.offered();
    if offers(tools, name) {
        let k = choose|k: int| 0 <= k < names_of(tools).len() && names_of(tools)[k] == name;
        assert(advertises(registry.advertised()[k], tools[k]));
    }
    if exists|i: int|
        0 <= i < registry.advertised().len() && (#[trigger] registry.advertised()[i]).name@ == name {
        let i = choose|i: int|
            0 <= i < registry.advertised().len() && (#[trigger] registry.advertised()[i]).name@
                == name;
        assert(names_of(tools)[i] == name);
    }
}

/// Names that are all known and given once select those tools, in the order of the names.
pub proof fn a_selection_is_what_was_named(names: Seq<Seq<char>>)
    ensures
        match selection(names) {
            Selection::Tools(tools) => tools.len() == names.len() && (forall|i: int|
                0 <= i < tools.len() ==> builtin_name(#[trigger] tools[i]) == names[i]) && (forall|
                i: int,
                j: int,
            |
                0 <= i < j < names.len() ==> #[trigger] names[i] != #[trigger] names[j]),
            Selection::Unknown(name) => names.contains(name) && forall|tool: Builtin| #[trigger]
                builtin_name(tool) != name,
            Selection::Repeated(name) => exists|i: int, j: int|
                0 <= i < j < names.len() && #[trigger] names[i] == name && #[trigger] names[j]
                    == name,
        },
    decreases names.len(),
{
    if names.len() > 0 {
        let front = names.drop_last();
        let n = names.len() - 1;
        a_selection_is_what_was_named(front);
        assert forall|i: int| 0 <= i < n implies front[i] == #[trigger] names[i] by {}
        assert(names[n] == names.last());
        match selection(front) {
            Selection::Tools(tools) => {
                match builtin_named(names.last()) {
                    None => {},
                    Some(tool) => {
                        assert(builtin_name(tool) == names.last());
                        if tools.contains(tool) {
                            let i = choose|i: int| 0 <= i < tools.len() && tools[i] == tool;
                            assert(builtin_name(tools[i]) == front[i]);
                            assert(names[i] == names.last());
                        } else {
                            let all = tools.push(tool);
                            assert forall|i: int| 0 <= i < all.len() implies builtin_name(
                                #[trigger] all[i],
                            ) == names[i] by {
                                if i < tools.len() {
                                    assert(builtin_name(tools[i]) == front[i]);
                                }
                            }
                            assert forall|i: int, j: int|
                                0 <= i < j < names.len() implies #[trigger] names[i]
                                != #[trigger] names[j] by {
                                if j < n {
                                    assert(front[i] != front[j]);
                                } else if names[i] == names[j] {
                                    assert(builtin_name(tools[i]) == front[i]);
                                    builtin_names_are_distinct(tools[i], tool);
                                    assert(tools.contains(tools[i]));
                                }
                            }
                        }
                    },
                }
            },
            Selection::Unknown(name) => {
                let i = choose|i: int| 0 <= i < front.len() && front[i] == name;
                assert(names[i] == name);
            },
            Selection::Repeated(name) => {
                let (i, j) = choose|i: int, j: int|
                    0 <= i < j < front.len() && #[trigger] front[i] == name && #[trigger] front[j]
                        == name;
                assert(names[i] == name && names[j] == name);
            },
        }
    }
}

/// Tools that are discovered later never replace one that is there: what was offered stays in
/// front, every name is offered once it has come, and what is passed over shares its name with
/// one that is offered.
pub proof fn discovered_tools_replace_none<T>(
    tools: Seq<AnyTool<T>>,
    more: Seq<AnyTool<T>>,
    i: int,
)
    ensures
        tools.is_prefix_of(joined_by(tools, more)),
        joined_by(tools, more).len() + passed_over(tools, more).len() == tools.len() + more.len(),
        0 <= i < more.len() ==> offers(joined_by(tools, more), more[i].called()),
        0 <= i < passed_over(tools, more).len() ==> offers(
            joined_by(tools, more),
            passed_over(tools, more)[i],
        ),
    decreases more.len(),
{
    if more.len() > 0 {
        let front = more.drop_last();
        let last = more.last();
        let before = joined_by(tools, front);
        let after = joined_by(tools, more);
        let dropped = passed_over(tools, front);
        discovered_tools_replace_none(tools, front, i);
        assert forall|name: Seq<char>| offers(before, name) implies #[trigger] offers(
            after,
            name,
        ) by {
            let k = choose|k: int| 0 <= k < names_of(before).len() && names_of(before)[k] == name;
            assert(names_of(after)[k] == name);
        }
        if !offers(before, last.called()) {
            assert(names_of(after)[before.len() as int] == last.called());
        }
        if 0 <= i < front.len() {
            assert(front[i] == more[i]);
        }
        if 0 <= i < dropped.len() {
            assert(passed_over(tools, more)[i] == dropped[i]);
        }
    }
}

/// A tool's output is handed to the model as it is, and an error whole behind a word that says so.
pub proof fn an_outcome_is_handed_on_whole(outcome: Result<String, String>, text: String)
    requires
        call_ensures(answer, (outcome,), text),
    ensures
        outcome matches Ok(output) ==> text@ == output@,
        outcome matches Err(error) ==> text@.skip(text@.len() - error@.len()) == error@
            && text@.len() > error@.len(),
{
    match outcome {
        Err(error) => {
            reveal_strlit("Error: ");
            assert(text@.skip(text@.len() - error@.len()) =~= error@);
        },
        Ok(_) => {},
    }
}

} // verus!

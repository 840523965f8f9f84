//! Which servers to reach, and how: a parsed `mcp.json`.

use vstd::prelude::*;

use crate::pairs::{
    enter, holds_also, in_name_order, lemma_value_at, lemma_value_under, lookup, put, table,
    value_under,
};
use crate::platform::Platform;
use crate::text::{
    chars_of, find_first, first_at, lemma_first_at, lemma_precedes_irreflexive, lowercase, lowered, occurs_at, occurs_in,
    opt_view, precedes, same_text, trim, trimmed, views,
};
use crate::tools::mcp::client::{local_name, namespaced, McpTool};

verus! {

/// Transports named in the wild.
#[derive(Debug, Clone, Copy, PartialEq, Eq, Structural)]
pub enum TransportKind {
    Stdio,
    Http,
    StreamableHttp,
    Sse,
}

/// The transport that a word names, in whatever case it is written.
pub open spec fn transport_named(word: Seq<char>) -> Option<TransportKind> {
    let low = lowered(word);
    if low == "stdio"@ {
        Some(TransportKind::Stdio)
    } else if low == "http"@ {
        Some(TransportKind::Http)
    } else if low == "streamablehttp"@ || low == "streamable-http"@ || low == "streamable_http"@ {
        Some(TransportKind::StreamableHttp)
    } else if low == "sse"@ {
        Some(TransportKind::Sse)
    } else {
        None
    }
}

impl TransportKind {
    /// The transport that a word names; nothing for any other word.
    pub fn named(word: &str) -> (kind: Option<TransportKind>)
        ensures
            kind == transport_named(word@),
    {
        let low = lowercase(word);
        let low = low.as_str();
        if same_text(low, "stdio") {
            Some(TransportKind::Stdio)
        } else if same_text(low, "http") {
            Some(TransportKind::Http)
        } else if same_text(low, "streamablehttp") || same_text(low, "streamable-http")
            || same_text(low, "streamable_http") {
            Some(TransportKind::StreamableHttp)
        } else if same_text(low, "sse") {
            Some(TransportKind::Sse)
        } else {
            None
        }
    }
}

/// How to reach one server. The fields of both transports stand together, as they do in the
/// file. The variables and the headers stand in the order of their names, each name once.
#[derive(Debug, PartialEq, Eq)]
pub struct ServerConfig {
    /// Explicit transport; inferred from the other fields where it is absent.
    pub kind: Option<TransportKind>,
    /// Executable to spawn.
    pub command: Option<String>,
    pub args: Vec<String>,
    pub env: Vec<(String, String)>,
    /// Working directory of the spawned process.
    pub cwd: Option<String>,
    /// Endpoint to connect to.
    pub url: Option<String>,
    pub headers: Vec<(String, String)>,
    /// Skip this server; both spellings are in use.
    pub disabled: bool,
    pub enabled: Option<bool>,
    /// Offer only these tools, named as the server advertises them.
    pub allowed_tools: Option<Vec<String>>,
}

/// A parsed `mcp.json`: the servers by their labels, in the order of the labels, each label once.
#[derive(Debug, PartialEq, Eq)]
pub struct McpConfig {
    pub mcp_servers: Vec<(String, ServerConfig)>,
}

/// What is wrong with a server's entry.
#[derive(Debug, PartialEq, Eq)]
pub enum ConfigError {
    AmbiguousTransport,
    MissingTransport,
    UnsupportedSse,
    MissingCommand,
    MissingUrl,
    /// A `${` without its `}`, and the text it stands in.
    Unterminated(String),
    /// An environment variable that is not set, and the text that refers to it.
    Undefined { text: String, name: String },
}

/// A [`ConfigError`] by its contents.
pub enum ConfigFault {
    AmbiguousTransport,
    MissingTransport,
    UnsupportedSse,
    MissingCommand,
    MissingUrl,
    Unterminated(Seq<char>),
    Undefined(Seq<char>, Seq<char>),
}

impl View for ConfigError {
    type V = ConfigFault;

    open spec fn view(&self) -> ConfigFault {
        match self {
            ConfigError::AmbiguousTransport => ConfigFault::AmbiguousTransport,
            ConfigError::MissingTransport => ConfigFault::MissingTransport,
            ConfigError::UnsupportedSse => ConfigFault::UnsupportedSse,
            ConfigError::MissingCommand => ConfigFault::MissingCommand,
            ConfigError::MissingUrl => ConfigFault::MissingUrl,
            ConfigError::Unterminated(text) => ConfigFault::Unterminated(text@),
            ConfigError::Undefined { text, name } => ConfigFault::Undefined(text@, name@),
        }
    }
}

/// What is said of a fault.
pub open spec fn fault_text(fault: ConfigFault) -> Seq<char> {
    match fault {
        ConfigFault::AmbiguousTransport =>
            "both `command` and `url` are set; add `type` to disambiguate"@,
        ConfigFault::MissingTransport => "needs either `command` (stdio) or `url` (http)"@,
        ConfigFault::UnsupportedSse => "the `sse` transport is not supported; use `http`"@,
        ConfigFault::MissingCommand => "stdio server needs `command`"@,
        ConfigFault::MissingUrl => "http server needs `url`"@,
        ConfigFault::Unterminated(text) => "unterminated `${` in `"@ + text + "`"@,
        ConfigFault::Undefined(text, name) => "`"@ + text
            + "` references undefined environment variable `"@ + name + "`"@,
    }
}

impl ConfigError {
    /// What is said of it.
    pub fn message(&self) -> (text: String)
        ensures
            text@ == fault_text(self@),
    {
        match self {
            ConfigError::AmbiguousTransport =>
                "both `command` and `url` are set; add `type` to disambiguate".to_owned(),
            ConfigError::MissingTransport =>
                "needs either `command` (stdio) or `url` (http)".to_owned(),
            ConfigError::UnsupportedSse =>
                "the `sse` transport is not supported; use `http`".to_owned(),
            ConfigError::MissingCommand => "stdio server needs `command`".to_owned(),
            ConfigError::MissingUrl => "http server needs `url`".to_owned(),
            ConfigError::Unterminated(inside) => {
                let mut text = "unterminated `${` in `".to_owned();
                text.append(inside.as_str());
                text.append("`");
                text
            },
            ConfigError::Undefined { text: inside, name } => {
                let mut text = "`".to_owned();
                text.append(inside.as_str());
                text.append("` references undefined environment variable `");
                text.append(name.as_str());
                text.append("`");
                text
            },
        }
    }
}

impl Default for ServerConfig {
    fn default() -> (server: Self)
        ensures
            server.wf(),
            server.kind is None,
            server.command is None,
            server.args@.len() == 0,
            server.env@.len() == 0,
            server.cwd is None,
            server.url is None,
            server.headers@.len() == 0,
            !server.disabled,
            server.enabled is None,
            server.allowed_tools is None,
    {
        ServerConfig {
            kind: None,
            command: None,
            args: Vec::new(),
            env: Vec::new(),
            cwd: None,
            url: None,
            headers: Vec::new(),
            disabled: false,
            enabled: None,
            allowed_tools: None,
        }
    }
}

impl Default for McpConfig {
    fn default() -> (config: Self)
        ensures
            config.wf(),
            config.mcp_servers@.len() == 0,
    {
        McpConfig { mcp_servers: Vec::new() }
    }
}

impl ServerConfig {
    /// The variables and the headers stand in the order of their names, each name once.
    pub open spec fn wf(&self) -> bool {
        in_name_order(self.env@) && in_name_order(self.headers@)
    }

    /// Whether only the variables and the headers may differ.
    pub open spec fn same_but_for_tables(&self, other: Self) -> bool {
        &&& self.kind == other.kind
        &&& self.command == other.command
        &&& self.args == other.args
        &&& self.cwd == other.cwd
        &&& self.url == other.url
        &&& self.disabled == other.disabled
        &&& self.enabled == other.enabled
        &&& self.allowed_tools == other.allowed_tools
    }

    /// Declare a variable for the spawned process, in place of one of that name.
    pub fn set_variable(&mut self, name: String, value: String)
        requires
            old(self).wf(),
        ensures
            final(self).wf(),
            final(self).same_but_for_tables(*old(self)),
            final(self).headers == old(self).headers,
            holds_also(old(self).env@, final(self).env@, name@, value),
    {
        enter(&mut self.env, name, value);
    }

    /// Send a header with every request, in place of one of that name.
    pub fn set_header(&mut self, name: String, value: String)
        requires
            old(self).wf(),
        ensures
            final(self).wf(),
            final(self).same_but_for_tables(*old(self)),
            final(self).env == old(self).env,
            holds_also(old(self).headers@, final(self).headers@, name@, value),
    {
        enter(&mut self.headers, name, value);
    }

    /// Whether this entry should be started: `enabled` wins over `disabled`.
    pub open spec fn starts(&self) -> bool {
        match self.enabled {
            Some(enabled) => enabled,
            None => !self.disabled,
        }
    }

    /// Whether this entry should be started.
    pub fn is_enabled(&self) -> (starts: bool)
        ensures
            starts == self.starts(),
    {
        match self.enabled {
            Some(enabled) => enabled,
            None => !self.disabled,
        }
    }

    /// Resolve the transport, inferring it where `type` is absent.
    pub fn transport(&self) -> (kind: Result<TransportKind, ConfigError>)
        ensures
            kind == match (self.kind, self.command, self.url) {
                (Some(kind), _, _) => Ok::<TransportKind, ConfigError>(kind),
                (None, Some(_), None) => Ok(TransportKind::Stdio),
                (None, None, Some(_)) => Ok(TransportKind::StreamableHttp),
                (None, Some(_), Some(_)) => Err(ConfigError::AmbiguousTransport),
                (None, None, None) => Err(ConfigError::MissingTransport),
            },
    {
        match self.kind {
            Some(kind) => return Ok(kind),
            None => {},
        }
        match (self.command.is_some(), self.url.is_some()) {
            (true, false) => Ok(TransportKind::Stdio),
            (false, true) => Ok(TransportKind::StreamableHttp),
            (true, true) => Err(ConfigError::AmbiguousTransport),
            (false, false) => Err(ConfigError::MissingTransport),
        }
    }
}

/// The positions of the servers to start among the first `n`.
pub open spec fn started(servers: Seq<(String, ServerConfig)>, n: int) -> Seq<int>
    decreases n,
{
    if n <= 0 {
        seq![]
    } else if servers[n - 1].1.starts() {
        started(servers, n - 1).push(n - 1)
    } else {
        started(servers, n - 1)
    }
}

impl McpConfig {
    /// The servers stand in the order of their labels, each label once, and each is well formed.
    pub open spec fn wf(&self) -> bool {
        &&& in_name_order(self.mcp_servers@)
        &&& forall|i: int|
            0 <= i < self.mcp_servers@.len() ==> (#[trigger] self.mcp_servers@[i]).1.wf()
    }

    /// Add a server, in place of one with that label.
    pub fn insert(&mut self, label: String, server: ServerConfig)
        requires
            old(self).wf(),
            server.wf(),
        ensures
            final(self).wf(),
            holds_also(old(self).mcp_servers@, final(self).mcp_servers@, label@, server),
    {
        let ghost before = self.mcp_servers@;
        let ghost name = label@;
        let ghost added = server;
        enter(&mut self.mcp_servers, label, server);
        proof {
            let after = self.mcp_servers@;
            assert forall|i: int| 0 <= i < after.len() implies (#[trigger] after[i]).1.wf() by {
                lemma_value_at(after, i);
                let label = after[i].0@;
                if label != name {
                    assert(value_under(after, label) == value_under(before, label));
                    lemma_value_under(before, label);
                }
            }
        }
    }

    /// The servers that are not disabled, in order, by their positions.
    pub fn enabled(&self) -> (positions: Vec<usize>)
        ensures
            positions@.map_values(|p: usize| p as int) == started(
                self.mcp_servers@,
                self.mcp_servers@.len() as int,
            ),
    {
        let mut positions: Vec<usize> = Vec::new();
        let mut i: usize = 0;
        while i < self.mcp_servers.len()
            invariant
                i <= self.mcp_servers@.len(),
                positions@.map_values(|p: usize| p as int) =~= started(self.mcp_servers@, i as int),
            decreases self.mcp_servers@.len() - i,
        {
            let ghost before = positions@;
            if self.mcp_servers[i].1.is_enabled() {
                positions.push(i);
                assert(positions@.map_values(|p: usize| p as int) =~= before.map_values(
                    |p: usize| p as int,
                ).push(i as int));
            }
            i += 1;
        }
        positions
    }
}

proof fn lemma_started(servers: Seq<(String, ServerConfig)>, n: int)
    requires
        0 <= n <= servers.len(),
    ensures
        forall|i: int|
            0 <= i < started(servers, n).len() ==> 0 <= (#[trigger] started(servers, n)[i]) < n
                && servers[started(servers, n)[i]].1.starts(),
        forall|i: int, j: int|
            0 <= i < j < started(servers, n).len() ==> (#[trigger] started(servers, n)[i]) < (
            #[trigger] started(servers, n)[j]),
        forall|k: int|
            0 <= k < n && (#[trigger] servers[k]).1.starts() ==> started(servers, n).contains(k),
    decreases n,
{
    if n > 0 {
        lemma_started(servers, n - 1);
        let before = started(servers, n - 1);
        let after = started(servers, n);
        if servers[n - 1].1.starts() {
            assert forall|i: int| 0 <= i < after.len() implies 0 <= (#[trigger] after[i]) < n
                && servers[after[i]].1.starts() by {
                if i < before.len() {
                    assert(after[i] == before[i]);
                }
            }
            assert forall|i: int, j: int| 0 <= i < j < after.len() implies (#[trigger] after[i])
                < (#[trigger] after[j]) by {
                assert(after[i] == before[i]);
                if j < before.len() {
                    assert(after[j] == before[j]);
                }
            }
        }
        assert forall|k: int| 0 <= k < n && (#[trigger] servers[k]).1.starts() implies after.contains(
            k,
        ) by {
            if k < n - 1 {
                assert(before.contains(k));
                let i = choose|i: int| 0 <= i < before.len() && before[i] == k;
                assert(after[i] == k);
            } else {
                assert(after[before.len() as int] == k);
            }
        }
    }
}

/// The servers to start are those that are not disabled, each once, in the order of their labels.
pub proof fn servers_start_in_label_order(config: McpConfig)
    requires
        config.wf(),
    ensures
        ({
            let servers = config.mcp_servers@;
            let positions = started(servers, servers.len() as int);
            &&& forall|i: int|
                0 <= i < positions.len() ==> 0 <= (#[trigger] positions[i]) < servers.len()
                    && servers[positions[i]].1.starts()
            &&& forall|i: int, j: int|
                0 <= i < j < positions.len() ==> precedes(
                    servers[#[trigger] positions[i]].0@,
                    servers[#[trigger] positions[j]].0@,
                )
            &&& forall|k: int|
                0 <= k < servers.len() && (#[trigger] servers[k]).1.starts()
                    ==> positions.contains(k)
        }),
{
    lemma_started(config.mcp_servers@, config.mcp_servers@.len() as int);
}

/// The variable that the inside of a `${}` names; `env:` in front of it means the same.
pub open spec fn variable(inside: Seq<char>) -> Seq<char> {
    let name = trimmed(inside);
    if "env:"@.is_prefix_of(name) {
        name.skip(4)
    } else {
        name
    }
}

/// `text` from position `from` on, with each `${VAR}` and `${env:VAR}` replaced by the
/// variable's value, or what keeps it from being replaced.
pub open spec fn expanded(
    text: Seq<char>,
    from: int,
    env: Map<Seq<char>, Seq<char>>,
) -> Result<Seq<char>, ConfigFault>
    decreases text.len() - from,
    when 0 <= from <= text.len()
{
    proof {
        lemma_references(text, from);
    }
    match first_at(text, "${"@, from) {
        None => Ok(text.skip(from)),
        Some(start) => match first_at(text, "}"@, start + 2) {
            None => Err(ConfigFault::Unterminated(text)),
            Some(end) => {
                let name = variable(text.subrange(start + 2, end));
                if !env.dom().contains(name) {
                    Err(ConfigFault::Undefined(text, name))
                } else {
                    match expanded(text, end + 1, env) {
                        Ok(rest) => Ok(text.subrange(from, start) + env[name] + rest),
                        Err(fault) => Err(fault),
                    }
                }
            },
        },
    }
}

pub proof fn lemma_references(text: Seq<char>, from: int)
    requires
        0 <= from <= text.len(),
    ensures
        first_at(text, "${"@, from) matches Some(start) ==> from <= start && start + 2 <= text.len()
            && (first_at(text, "}"@, start + 2) matches Some(end) ==> start + 2 <= end && end
            < text.len()),
{
    reveal_strlit("${");
    reveal_strlit("}");
    lemma_first_at(text, "${"@, from);
    match first_at(text, "${"@, from) {
        Some(start) => lemma_first_at(text, "}"@, start + 2),
        None => {},
    }
}

/// A text that refers to no variable is left as it is.
pub proof fn plain_text_expands_to_itself(text: Seq<char>, env: Map<Seq<char>, Seq<char>>)
    requires
        !occurs_in(text, "${"@),
    ensures
        expanded(text, 0, env) == Ok::<Seq<char>, ConfigFault>(text),
{
    lemma_first_at(text, "${"@, 0);
    match first_at(text, "${"@, 0) {
        Some(start) => {
            assert(occurs_at(text, "${"@, start));
        },
        None => {},
    }
    assert(text.skip(0) =~= text);
}

fn expand_from(
    text: &str,
    chars: &Vec<char>,
    from: usize,
    env: &Vec<(String, String)>,
) -> (out: Result<String, ConfigError>)
    requires
        chars@ == text@,
        from <= chars@.len(),
    ensures
        match (out, expanded(text@, from as int, table(env@))) {
            (Ok(replaced), Ok(expected)) => replaced@ == expected,
            (Err(why), Err(fault)) => why@ == fault,
            _ => false,
        },
    decreases chars@.len() - from,
{
    let total: usize = chars.len();
    let open = chars_of("${");
    let close = chars_of("}");
    proof {
        reveal_strlit("${");
        reveal_strlit("}");
        lemma_references(text@, from as int);
    }
    let start: usize = match find_first(chars, &open, from) {
        Some(at) => at,
        None => {
            let rest = text.substring_char(from, total);
            assert(rest@ =~= text@.skip(from as int));
            return Ok(rest.to_owned());
        },
    };
    assert(start + 2 <= total);
    let end: usize = match find_first(chars, &close, start + 2) {
        Some(at) => at,
        None => return Err(ConfigError::Unterminated(text.to_owned())),
    };
    assert(end < total);
    let inside = trim(text.substring_char(start + 2, end));
    let name = strip_env(inside);
    match lookup(env, name) {
        None => Err(ConfigError::Undefined { text: text.to_owned(), name: name.to_owned() }),
        Some(value) => match expand_from(text, chars, end + 1, env) {
            Ok(rest) => {
                let mut out = text.substring_char(from, start).to_owned();
                out.append(value);
                out.append(rest.as_str());
                Ok(out)
            },
            Err(why) => Err(why),
        },
    }
}

/// A variable's name without `env:` in front of it.
fn strip_env(name: &str) -> (bare: &str)
    ensures
        bare@ == if "env:"@.is_prefix_of(name@) {
            name@.skip(4)
        } else {
            name@
        },
{
    let chars = chars_of(name);
    let prefix = chars_of("env:");
    proof {
        reveal_strlit("env:");
        assert(occurs_at(name@, "env:"@, 0) == "env:"@.is_prefix_of(name@)) by {
            if name@.len() >= 4 {
                assert(name@.subrange(0, 4) =~= name@.take(4));
            }
            if occurs_at(name@, "env:"@, 0) {
                assert forall|i: int| 0 <= i < 4 implies "env:"@[i] == name@[i] by {
                    assert(name@.subrange(0, 4)[i] == name@[i]);
                }
            }
            if "env:"@.is_prefix_of(name@) {
                assert(name@.subrange(0, 4) =~= "env:"@);
            }
        }
    }
    if crate::text::stands_at(&chars, &prefix, 0) {
        assert(name@.subrange(4, name@.len() as int) =~= name@.skip(4));
        name.substring_char(4, chars.len())
    } else {
        name
    }
}

/// Substitute `${VAR}` and `${env:VAR}` from the environment `env`, which holds what the system
/// answers for each variable that is asked for.
///
/// A variable that is not set is an error: a literal `${TOKEN}` would only fail later, and less
/// clearly.
pub fn expand(text: &str, env: &Vec<(String, String)>) -> (out: Result<String, ConfigError>)
    ensures
        match (out, expanded(text@, 0, table(env@))) {
            (Ok(replaced), Ok(expected)) => replaced@ == expected,
            (Err(why), Err(fault)) => why@ == fault,
            _ => false,
        },
{
    let chars = chars_of(text);
    expand_from(text, &chars, 0, env)
}

/// The variables that `text` refers to from position `from` on, in order.
pub open spec fn references(text: Seq<char>, from: int) -> Seq<Seq<char>>
    decreases text.len() - from,
    when 0 <= from <= text.len()
{
    proof {
        lemma_references(text, from);
    }
    match first_at(text, "${"@, from) {
        None => seq![],
        Some(start) => match first_at(text, "}"@, start + 2) {
            None => seq![],
            Some(end) => seq![variable(text.subrange(start + 2, end))] + references(text, end + 1),
        },
    }
}

/// The variables that some texts refer to, in order.
pub open spec fn all_references(texts: Seq<Seq<char>>) -> Seq<Seq<char>>
    decreases texts.len(),
{
    if texts.len() == 0 {
        seq![]
    } else {
        all_references(texts.drop_last()) + references(texts.last(), 0)
    }
}

/// Whether two environments agree on some variables.
pub open spec fn agree(
    env: Map<Seq<char>, Seq<char>>,
    other: Map<Seq<char>, Seq<char>>,
    names: Seq<Seq<char>>,
) -> bool {
    forall|i: int| 0 <= i < names.len() ==> agree_on(env, other, #[trigger] names[i])
}

/// Whether two environments agree on a variable.
pub open spec fn agree_on(
    env: Map<Seq<char>, Seq<char>>,
    other: Map<Seq<char>, Seq<char>>,
    name: Seq<char>,
) -> bool {
    env.dom().contains(name) == other.dom().contains(name) && (env.dom().contains(name)
        ==> env[name] == other[name])
}

/// Expanding a text reads no variable but those that it refers to.
pub proof fn expansion_reads_only_what_it_names(
    text: Seq<char>,
    from: int,
    env: Map<Seq<char>, Seq<char>>,
    other: Map<Seq<char>, Seq<char>>,
)
    requires
        0 <= from <= text.len(),
        agree(env, other, references(text, from)),
    ensures
        expanded(text, from, env) == expanded(text, from, other),
    decreases text.len() - from,
{
    lemma_references(text, from);
    match first_at(text, "${"@, from) {
        Some(start) => match first_at(text, "}"@, start + 2) {
            Some(end) => {
                let names = references(text, from);
                let rest = references(text, end + 1);
                assert(names[0] == variable(text.subrange(start + 2, end)));
                assert(agree_on(env, other, names[0]));
                assert forall|i: int| 0 <= i < rest.len() implies agree_on(
                    env,
                    other,
                    #[trigger] rest[i],
                ) by {
                    assert(names[i + 1] == rest[i]);
                }
                expansion_reads_only_what_it_names(text, end + 1, env, other);
            },
            None => {},
        },
        None => {},
    }
}

/// The variables that a text refers to, in order. How the system compares their names is its own
/// matter: an environment holds what it answers for each of them.
pub fn variables_in(text: &str) -> (names: Vec<String>)
    ensures
        views(names@) == references(text@, 0),
{
    let chars = chars_of(text);
    let total: usize = chars.len();
    let open = chars_of("${");
    let close = chars_of("}");
    let mut names: Vec<String> = Vec::new();
    let mut from: usize = 0;
    assert(views(names@) + references(text@, 0) =~= references(text@, 0));
    loop
        invariant
            chars@ == text@,
            total == text@.len(),
            open@ == "${"@,
            close@ == "}"@,
            from <= total,
            references(text@, 0) == views(names@) + references(text@, from as int),
        decreases total - from,
    {
        proof {
            reveal_strlit("${");
            reveal_strlit("}");
            lemma_references(text@, from as int);
        }
        let start: usize = match find_first(&chars, &open, from) {
            Some(at) => at,
            None => {
                assert(views(names@) + seq![] =~= views(names@));
                return names;
            },
        };
        assert(start + 2 <= total);
        let end: usize = match find_first(&chars, &close, start + 2) {
            Some(at) => at,
            None => {
                assert(views(names@) + seq![] =~= views(names@));
                return names;
            },
        };
        assert(end < total);
        let inside = trim(text.substring_char(start + 2, end));
        let name = strip_env(inside).to_owned();
        let ghost before = views(names@);
        proof {
            let rest = references(text@, end + 1);
            assert(before + (seq![name@] + rest) =~= before.push(name@) + rest);
        }
        let ghost said = name@;
        names.push(name);
        assert(views(names@) =~= before.push(said));
        from = end + 1;
    }
}

/// Environment variables that a spawned server is given besides its own: only what it takes to
/// find and start a program.
pub const INHERITED_ENV_VARS: [&'static str; 5] = ["PATH", "HOME", "TMPDIR", "LANG", "LC_ALL"];

/// [`INHERITED_ENV_VARS`] on Windows.
pub const INHERITED_WINDOWS_ENV_VARS: [&'static str; 11] = [
    "PATH",
    "SystemRoot",
    "SystemDrive",
    "TEMP",
    "TMP",
    "USERPROFILE",
    "APPDATA",
    "LOCALAPPDATA",
    "ProgramData",
    "ComSpec",
    "windir",
];

/// How many variables are inherited.
pub open spec fn inherited_count(platform: Platform) -> int {
    match platform {
        Platform::Unix => 5,
        Platform::Windows => 11,
    }
}

/// The name of an inherited variable.
pub open spec fn inherited_name(platform: Platform, i: int) -> Seq<char> {
    match platform {
        Platform::Unix => INHERITED_ENV_VARS[i]@,
        Platform::Windows => INHERITED_WINDOWS_ENV_VARS[i]@,
    }
}

/// The names of the inherited variables.
pub fn inherited_names(platform: Platform) -> (names: Vec<&'static str>)
    ensures
        names@.len() == inherited_count(platform),
        forall|i: int|
            0 <= i < names@.len() ==> (#[trigger] names@[i])@ == inherited_name(platform, i),
{
    let count: usize = match platform {
        Platform::Unix => 5,
        Platform::Windows => 11,
    };
    let mut names: Vec<&'static str> = Vec::new();
    let mut i: usize = 0;
    while i < count
        invariant
            i <= count == inherited_count(platform),
            names@.len() == i,
            forall|k: int|
                0 <= k < i ==> (#[trigger] names@[k])@ == inherited_name(platform, k),
        decreases count - i,
    {
        names.push(
            match platform {
                Platform::Unix => INHERITED_ENV_VARS[i],
                Platform::Windows => INHERITED_WINDOWS_ENV_VARS[i],
            },
        );
        i += 1;
    }
    names
}

/// The inherited variables as they are set in `env`, the first `n` of them.
pub open spec fn inherited(
    platform: Platform,
    env: Map<Seq<char>, Seq<char>>,
    n: int,
) -> Map<Seq<char>, Seq<char>>
    decreases n,
{
    if n <= 0 {
        Map::empty()
    } else {
        let before = inherited(platform, env, n - 1);
        let name = inherited_name(platform, n - 1);
        if env.dom().contains(name) {
            before.insert(name, env[name])
        } else {
            before
        }
    }
}

/// `base` with the first `n` of `pairs` set on top, their values expanded.
pub open spec fn overlaid(
    base: Map<Seq<char>, Seq<char>>,
    pairs: Seq<(String, String)>,
    n: int,
    env: Map<Seq<char>, Seq<char>>,
) -> Result<Map<Seq<char>, Seq<char>>, ConfigFault>
    decreases n,
{
    if n <= 0 {
        Ok(base)
    } else {
        match overlaid(base, pairs, n - 1, env) {
            Err(fault) => Err(fault),
            Ok(before) => match expanded(pairs[n - 1].1@, 0, env) {
                Ok(value) => Ok(before.insert(pairs[n - 1].0@, value)),
                Err(fault) => Err(fault),
            },
        }
    }
}

proof fn lemma_overlaid_fails_early(
    base: Map<Seq<char>, Seq<char>>,
    pairs: Seq<(String, String)>,
    n: int,
    m: int,
    env: Map<Seq<char>, Seq<char>>,
)
    requires
        0 <= n <= m,
        overlaid(base, pairs, n, env) is Err,
    ensures
        overlaid(base, pairs, m, env) == overlaid(base, pairs, n, env),
    decreases m,
{
    if n < m {
        lemma_overlaid_fails_early(base, pairs, n, m - 1, env);
    }
}

/// The environment of a spawned server: the inherited variables, and on top of them those that
/// its entry declares.
pub open spec fn server_env(
    server: ServerConfig,
    env: Map<Seq<char>, Seq<char>>,
    platform: Platform,
) -> Result<Map<Seq<char>, Seq<char>>, ConfigFault> {
    overlaid(
        inherited(platform, env, inherited_count(platform)),
        server.env@,
        server.env@.len() as int,
        env,
    )
}

/// The environment of a spawned server, given this process's own in `env` and the kind of system
/// it runs on.
pub fn stdio_env(
    server: &ServerConfig,
    env: &Vec<(String, String)>,
    platform: Platform,
) -> (out: Result<Vec<(String, String)>, ConfigError>)
    ensures
        match (out, server_env(*server, table(env@), platform)) {
            (Ok(pairs), Ok(expected)) => in_name_order(pairs@) && table(pairs@) == expected,
            (Err(why), Err(fault)) => why@ == fault,
            _ => false,
        },
{
    let ghost own = table(env@);
    let names = inherited_names(platform);
    let mut out: Vec<(String, String)> = Vec::new();
    let mut i: usize = 0;
    while i < names.len()
        invariant
            i <= names@.len() == inherited_count(platform),
            forall|k: int|
                0 <= k < names@.len() ==> (#[trigger] names@[k])@ == inherited_name(platform, k),
            own == table(env@),
            in_name_order(out@),
            table(out@) == inherited(platform, own, i as int),
        decreases names@.len() - i,
    {
        let name = names[i];
        match lookup(env, name) {
            Some(value) => put(&mut out, name.to_owned(), value.to_owned()),
            None => {},
        }
        i += 1;
    }
    let ghost base = inherited(platform, own, inherited_count(platform));
    let mut k: usize = 0;
    while k < server.env.len()
        invariant
            k <= server.env@.len(),
            own == table(env@),
            base == inherited(platform, own, inherited_count(platform)),
            in_name_order(out@),
            overlaid(base, server.env@, k as int, own) matches Ok(expected) && table(out@)
                == expected,
        decreases server.env@.len() - k,
    {
        match expand(server.env[k].1.as_str(), env) {
            Ok(value) => put(&mut out, server.env[k].0.clone(), value),
            Err(why) => {
                proof {
                    lemma_overlaid_fails_early(
                        base,
                        server.env@,
                        k + 1,
                        server.env@.len() as int,
                        own,
                    );
                }
                return Err(why);
            },
        }
        k += 1;
    }
    Ok(out)
}

/// A spawned server sees nothing of this process's environment but the inherited variables and
/// what its entry declares.
pub proof fn a_server_sees_only_what_it_is_given(
    server: ServerConfig,
    env: Map<Seq<char>, Seq<char>>,
    platform: Platform,
    name: Seq<char>,
)
    requires
        server_env(server, env, platform) matches Ok(seen) && seen.dom().contains(name),
    ensures
        (exists|i: int|
            0 <= i < inherited_count(platform) && #[trigger] inherited_name(platform, i) == name)
            || (exists|i: int|
            0 <= i < server.env@.len() && (#[trigger] server.env@[i]).0@ == name),
{
    let count = inherited_count(platform);
    let base = inherited(platform, env, count);
    lemma_overlaid_names(base, server.env@, server.env@.len() as int, env, name);
    if base.dom().contains(name) {
        lemma_inherited_names(platform, env, count, name);
    }
}

proof fn lemma_inherited_names(
    platform: Platform,
    env: Map<Seq<char>, Seq<char>>,
    n: int,
    name: Seq<char>,
)
    requires
        0 <= n,
        inherited(platform, env, n).dom().contains(name),
    ensures
        exists|i: int| 0 <= i < n && #[trigger] inherited_name(platform, i) == name,
    decreases n,
{
    if n > 0 && inherited_name(platform, n - 1) != name {
        lemma_inherited_names(platform, env, n - 1, name);
    }
}

proof fn lemma_overlaid_names(
    base: Map<Seq<char>, Seq<char>>,
    pairs: Seq<(String, String)>,
    n: int,
    env: Map<Seq<char>, Seq<char>>,
    name: Seq<char>,
)
    requires
        0 <= n <= pairs.len(),
        overlaid(base, pairs, n, env) matches Ok(seen) && seen.dom().contains(name),
    ensures
        base.dom().contains(name) || exists|i: int| 0 <= i < n && (#[trigger] pairs[i]).0@ == name,
    decreases n,
{
    if n > 0 && pairs[n - 1].0@ != name {
        lemma_overlaid_names(base, pairs, n - 1, env, name);
    }
}

/// How to start a server as a child process.
#[derive(Debug, PartialEq, Eq)]
pub struct StdioLaunch {
    pub program: String,
    pub args: Vec<String>,
    /// The whole environment of the process.
    pub env: Vec<(String, String)>,
    pub cwd: Option<String>,
}

/// Each text expanded, the first `n` of them.
pub open spec fn all_expanded(
    texts: Seq<String>,
    n: int,
    env: Map<Seq<char>, Seq<char>>,
) -> Result<Seq<Seq<char>>, ConfigFault>
    decreases n,
{
    if n <= 0 {
        Ok(seq![])
    } else {
        match all_expanded(texts, n - 1, env) {
            Err(fault) => Err(fault),
            Ok(before) => match expanded(texts[n - 1]@, 0, env) {
                Ok(text) => Ok(before.push(text)),
                Err(fault) => Err(fault),
            },
        }
    }
}

proof fn lemma_all_expanded_fails_early(
    texts: Seq<String>,
    n: int,
    m: int,
    env: Map<Seq<char>, Seq<char>>,
)
    requires
        0 <= n <= m,
        all_expanded(texts, n, env) is Err,
    ensures
        all_expanded(texts, m, env) == all_expanded(texts, n, env),
    decreases m,
{
    if n < m {
        lemma_all_expanded_fails_early(texts, n, m - 1, env);
    }
}

fn expand_all(texts: &Vec<String>, env: &Vec<(String, String)>) -> (out: Result<
    Vec<String>,
    ConfigError,
>)
    ensures
        match (out, all_expanded(texts@, texts@.len() as int, table(env@))) {
            (Ok(found), Ok(expected)) => views(found@) == expected,
            (Err(why), Err(fault)) => why@ == fault,
            _ => false,
        },
{
    let mut found: Vec<String> = Vec::new();
    let mut i: usize = 0;
    assert(views(found@) =~= seq![]);
    while i < texts.len()
        invariant
            i <= texts@.len(),
            all_expanded(texts@, i as int, table(env@)) matches Ok(expected) && views(found@)
                == expected,
        decreases texts@.len() - i,
    {
        let ghost before = found@;
        match expand(texts[i].as_str(), env) {
            Ok(text) => {
                found.push(text);
                assert(views(found@) =~= views(before).push(text@));
            },
            Err(why) => {
                proof {
                    lemma_all_expanded_fails_early(
                        texts@,
                        i + 1,
                        texts@.len() as int,
                        table(env@),
                    );
                }
                return Err(why);
            },
        }
        i += 1;
    }
    Ok(found)
}

/// What starting a server as a child process comes to: what was found wrong first, or the
/// program, its arguments, its environment and its directory, in this order.
pub open spec fn launches(
    server: ServerConfig,
    env: Map<Seq<char>, Seq<char>>,
    platform: Platform,
    launch: Result<StdioLaunch, ConfigError>,
) -> bool {
    match opt_view(server.command) {
        None => launch matches Err(why) && why@ == ConfigFault::MissingCommand,
        Some(command) => match (
            expanded(command, 0, env),
            all_expanded(server.args@, server.args@.len() as int, env),
            server_env(server, env, platform),
            match opt_view(server.cwd) {
                Some(cwd) => match expanded(cwd, 0, env) {
                    Ok(place) => Ok::<Option<Seq<char>>, ConfigFault>(Some(place)),
                    Err(fault) => Err(fault),
                },
                None => Ok(None),
            },
        ) {
            (Err(fault), _, _, _) => launch matches Err(why) && why@ == fault,
            (_, Err(fault), _, _) => launch matches Err(why) && why@ == fault,
            (_, _, Err(fault), _) => launch matches Err(why) && why@ == fault,
            (_, _, _, Err(fault)) => launch matches Err(why) && why@ == fault,
            (Ok(program), Ok(args), Ok(seen), Ok(cwd)) => launch matches Ok(found)
                && found.program@ == program && views(found.args@) == args && in_name_order(
                found.env@,
            ) && table(found.env@) == seen && opt_view(found.cwd) == cwd,
        },
    }
}

/// How to start a server as a child process, given this process's own environment and the kind of
/// system it runs on.
pub fn stdio_launch(
    server: &ServerConfig,
    env: &Vec<(String, String)>,
    platform: Platform,
) -> (launch: Result<StdioLaunch, ConfigError>)
    ensures
        launches(*server, table(env@), platform, launch),
{
    let program = match &server.command {
        None => return Err(ConfigError::MissingCommand),
        Some(command) => match expand(command.as_str(), env) {
            Ok(program) => program,
            Err(why) => return Err(why),
        },
    };
    let args = match expand_all(&server.args, env) {
        Ok(args) => args,
        Err(why) => return Err(why),
    };
    let seen = match stdio_env(server, env, platform) {
        Ok(seen) => seen,
        Err(why) => return Err(why),
    };
    let cwd: Option<String> = match &server.cwd {
        None => None,
        Some(cwd) => match expand(cwd.as_str(), env) {
            Ok(place) => Some(place),
            Err(why) => return Err(why),
        },
    };
    Ok(StdioLaunch { program, args, env: seen, cwd })
}

/// Where to reach a server over HTTP, and what to send with every request.
#[derive(Debug, PartialEq, Eq)]
pub struct HttpTarget {
    pub url: String,
    pub headers: Vec<(String, String)>,
}

/// The first `n` headers with their names and values expanded.
pub open spec fn expanded_headers(
    headers: Seq<(String, String)>,
    n: int,
    env: Map<Seq<char>, Seq<char>>,
) -> Result<Map<Seq<char>, Seq<char>>, ConfigFault>
    decreases n,
{
    if n <= 0 {
        Ok(Map::empty())
    } else {
        match expanded_headers(headers, n - 1, env) {
            Err(fault) => Err(fault),
            Ok(before) => match (
                expanded(headers[n - 1].0@, 0, env),
                expanded(headers[n - 1].1@, 0, env),
            ) {
                (Err(fault), _) => Err(fault),
                (_, Err(fault)) => Err(fault),
                (Ok(name), Ok(value)) => Ok(before.insert(name, value)),
            },
        }
    }
}

proof fn lemma_expanded_headers_fail_early(
    headers: Seq<(String, String)>,
    n: int,
    m: int,
    env: Map<Seq<char>, Seq<char>>,
)
    requires
        0 <= n <= m,
        expanded_headers(headers, n, env) is Err,
    ensures
        expanded_headers(headers, m, env) == expanded_headers(headers, n, env),
    decreases m,
{
    if n < m {
        lemma_expanded_headers_fail_early(headers, n, m - 1, env);
    }
}

/// What reaching a server over HTTP comes to: what was found wrong first, or the address and
/// the headers.
pub open spec fn targets(
    server: ServerConfig,
    env: Map<Seq<char>, Seq<char>>,
    target: Result<HttpTarget, ConfigError>,
) -> bool {
    match opt_view(server.url) {
        None => target matches Err(why) && why@ == ConfigFault::MissingUrl,
        Some(url) => match (
            expanded_headers(server.headers@, server.headers@.len() as int, env),
            expanded(url, 0, env),
        ) {
            (Err(fault), _) => target matches Err(why) && why@ == fault,
            (_, Err(fault)) => target matches Err(why) && why@ == fault,
            (Ok(headers), Ok(place)) => target matches Ok(found) && found.url@ == place
                && in_name_order(found.headers@) && table(found.headers@) == headers,
        },
    }
}

/// Where to reach a server over HTTP, given this process's own environment.
pub fn http_target(server: &ServerConfig, env: &Vec<(String, String)>) -> (target: Result<
    HttpTarget,
    ConfigError,
>)
    ensures
        targets(*server, table(env@), target),
{
    let url = match &server.url {
        None => return Err(ConfigError::MissingUrl),
        Some(url) => url,
    };
    let ghost own = table(env@);
    let mut headers: Vec<(String, String)> = Vec::new();
    let mut i: usize = 0;
    while i < server.headers.len()
        invariant
            i <= server.headers@.len(),
            own == table(env@),
            in_name_order(headers@),
            expanded_headers(server.headers@, i as int, own) matches Ok(expected) && table(headers@)
                == expected,
            server.url == Some(*url),
        decreases server.headers@.len() - i,
    {
        let name = match expand(server.headers[i].0.as_str(), env) {
            Ok(name) => name,
            Err(why) => {
                proof {
                    lemma_expanded_headers_fail_early(
                        server.headers@,
                        i + 1,
                        server.headers@.len() as int,
                        own,
                    );
                }
                return Err(why);
            },
        };
        let value = match expand(server.headers[i].1.as_str(), env) {
            Ok(value) => value,
            Err(why) => {
                proof {
                    lemma_expanded_headers_fail_early(
                        server.headers@,
                        i + 1,
                        server.headers@.len() as int,
                        own,
                    );
                }
                return Err(why);
            },
        };
        put(&mut headers, name, value);
        i += 1;
    }
    match expand(url.as_str(), env) {
        Ok(place) => Ok(HttpTarget { url: place, headers }),
        Err(why) => Err(why),
    }
}

/// How to reach a server.
#[derive(Debug, PartialEq, Eq)]
pub enum Connection {
    Stdio(StdioLaunch),
    Http(HttpTarget),
}

/// How to reach a server, given this process's own environment and the kind of system it runs on.
pub fn connection(
    server: &ServerConfig,
    env: &Vec<(String, String)>,
    platform: Platform,
) -> (found: Result<Connection, ConfigError>)
    ensures
        ({
            let kind = match (server.kind, server.command, server.url) {
                (Some(kind), _, _) => Some(kind),
                (None, Some(_), None) => Some(TransportKind::Stdio),
                (None, None, Some(_)) => Some(TransportKind::StreamableHttp),
                _ => None,
            };
            match kind {
                None => found matches Err(why) && why@ == if server.command is Some {
                    ConfigFault::AmbiguousTransport
                } else {
                    ConfigFault::MissingTransport
                },
                Some(TransportKind::Sse) => found matches Err(why) && why@
                    == ConfigFault::UnsupportedSse,
                Some(TransportKind::Stdio) => match found {
                    Ok(Connection::Stdio(launch)) => launches(
                        *server,
                        table(env@),
                        platform,
                        Ok(launch),
                    ),
                    Ok(Connection::Http(_)) => false,
                    Err(why) => launches(*server, table(env@), platform, Err(why)),
                },
                Some(_) => match found {
                    Ok(Connection::Http(target)) => targets(*server, table(env@), Ok(target)),
                    Ok(Connection::Stdio(_)) => false,
                    Err(why) => targets(*server, table(env@), Err(why)),
                },
            }
        }),
{
    let kind = match server.transport() {
        Ok(kind) => kind,
        Err(why) => return Err(why),
    };
    match kind {
        TransportKind::Stdio => match stdio_launch(server, env, platform) {
            Ok(launch) => Ok(Connection::Stdio(launch)),
            Err(why) => Err(why),
        },
        TransportKind::Http | TransportKind::StreamableHttp => match http_target(server, env) {
            Ok(target) => Ok(Connection::Http(target)),
            Err(why) => Err(why),
        },
        TransportKind::Sse => Err(ConfigError::UnsupportedSse),
    }
}

/// The values of some pairs.
pub open spec fn values_of(pairs: Seq<(String, String)>) -> Seq<Seq<char>> {
    pairs.map_values(|pair: (String, String)| pair.1@)
}

/// The names of some pairs.
pub open spec fn names_of(pairs: Seq<(String, String)>) -> Seq<Seq<char>> {
    pairs.map_values(|pair: (String, String)| pair.0@)
}

/// A text where there is one.
pub open spec fn if_any(text: Option<Seq<char>>) -> Seq<Seq<char>> {
    match text {
        Some(found) => seq![found],
        None => seq![],
    }
}

/// Every text of an entry that may refer to variables.
pub open spec fn expandable(server: ServerConfig) -> Seq<Seq<char>> {
    if_any(opt_view(server.command)) + views(server.args@) + values_of(server.env@) + if_any(
        opt_view(server.cwd),
    ) + names_of(server.headers@) + values_of(server.headers@) + if_any(opt_view(server.url))
}

/// The names of the inherited variables.
pub open spec fn inherited_texts(platform: Platform) -> Seq<Seq<char>> {
    Seq::new(inherited_count(platform) as nat, |i: int| inherited_name(platform, i))
}

/// The variables that reaching a server may ask for: the inherited ones, and those that its entry
/// refers to.
pub open spec fn asked_for(server: ServerConfig, platform: Platform) -> Seq<Seq<char>> {
    inherited_texts(platform) + all_references(expandable(server))
}

fn push_text(texts: &mut Vec<String>, text: &Option<String>)
    ensures
        views(final(texts)@) == views(old(texts)@) + if_any(opt_view(*text)),
{
    match text {
        Some(found) => {
            texts.push(found.clone());
            assert(views(texts@) =~= views(old(texts)@) + seq![found@]);
        },
        None => {
            assert(views(texts@) + seq![] =~= views(texts@));
        },
    }
}

fn push_names(texts: &mut Vec<String>, pairs: &Vec<(String, String)>)
    ensures
        views(final(texts)@) == views(old(texts)@) + names_of(pairs@),
{
    let ghost before = views(texts@);
    let mut i: usize = 0;
    while i < pairs.len()
        invariant
            i <= pairs@.len(),
            views(texts@) =~= before + names_of(pairs@).take(i as int),
        decreases pairs@.len() - i,
    {
        let ghost held = texts@;
        texts.push(pairs[i].0.clone());
        assert(views(texts@) =~= views(held).push(pairs@[i as int].0@));
        i += 1;
    }
    assert(names_of(pairs@).take(i as int) =~= names_of(pairs@));
}

fn push_values(texts: &mut Vec<String>, pairs: &Vec<(String, String)>)
    ensures
        views(final(texts)@) == views(old(texts)@) + values_of(pairs@),
{
    let ghost before = views(texts@);
    let mut i: usize = 0;
    while i < pairs.len()
        invariant
            i <= pairs@.len(),
            views(texts@) =~= before + values_of(pairs@).take(i as int),
        decreases pairs@.len() - i,
    {
        let ghost held = texts@;
        texts.push(pairs[i].1.clone());
        assert(views(texts@) =~= views(held).push(pairs@[i as int].1@));
        i += 1;
    }
    assert(values_of(pairs@).take(i as int) =~= values_of(pairs@));
}

fn push_texts(texts: &mut Vec<String>, more: &Vec<String>)
    ensures
        views(final(texts)@) == views(old(texts)@) + views(more@),
{
    let ghost before = views(texts@);
    let mut i: usize = 0;
    while i < more.len()
        invariant
            i <= more@.len(),
            views(texts@) =~= before + views(more@).take(i as int),
        decreases more@.len() - i,
    {
        let ghost held = texts@;
        texts.push(more[i].clone());
        assert(views(texts@) =~= views(held).push(more@[i as int]@));
        i += 1;
    }
    assert(views(more@).take(i as int) =~= views(more@));
}

/// The variables that reaching a server may ask for. The system is asked for each of them, so how
/// it compares names is its own matter.
pub fn variables(server: &ServerConfig, platform: Platform) -> (names: Vec<String>)
    ensures
        views(names@) == asked_for(*server, platform),
{
    let mut texts: Vec<String> = Vec::new();
    assert(views(texts@) =~= seq![]);
    push_text(&mut texts, &server.command);
    push_texts(&mut texts, &server.args);
    push_values(&mut texts, &server.env);
    push_text(&mut texts, &server.cwd);
    push_names(&mut texts, &server.headers);
    push_values(&mut texts, &server.headers);
    push_text(&mut texts, &server.url);
    assert(views(texts@) =~= expandable(*server));
    let inherited = inherited_names(platform);
    let mut names: Vec<String> = Vec::new();
    let mut i: usize = 0;
    while i < inherited.len()
        invariant
            i <= inherited@.len() == inherited_count(platform),
            forall|k: int|
                0 <= k < inherited@.len() ==> (#[trigger] inherited@[k])@ == inherited_name(
                    platform,
                    k,
                ),
            views(names@) =~= inherited_texts(platform).take(i as int),
        decreases inherited@.len() - i,
    {
        let ghost held = names@;
        names.push(inherited[i].to_owned());
        assert(views(names@) =~= views(held).push(inherited_name(platform, i as int)));
        i += 1;
    }
    let ghost first = inherited_texts(platform);
    assert(first.take(i as int) =~= first);
    let ghost all = views(texts@);
    let mut k: usize = 0;
    assert(all.take(0) =~= seq![]);
    assert(first + seq![] =~= first);
    while k < texts.len()
        invariant
            k <= texts@.len(),
            all == views(texts@),
            views(names@) == first + all_references(all.take(k as int)),
        decreases texts@.len() - k,
    {
        let found = variables_in(texts[k].as_str());
        proof {
            let next = all.take(k + 1);
            assert(next.drop_last() =~= all.take(k as int));
            assert(next.last() == texts@[k as int]@);
        }
        push_texts(&mut names, &found);
        assert(views(names@) =~= first + (all_references(all.take(k as int)) + views(found@)));
        k += 1;
    }
    assert(all.take(k as int) =~= all);
    names
}

proof fn lemma_agree_on_text(
    texts: Seq<Seq<char>>,
    at: int,
    env: Map<Seq<char>, Seq<char>>,
    other: Map<Seq<char>, Seq<char>>,
)
    requires
        0 <= at < texts.len(),
        agree(env, other, all_references(texts)),
    ensures
        expanded(texts[at], 0, env) == expanded(texts[at], 0, other),
    decreases texts.len(),
{
    let front = texts.drop_last();
    let before = all_references(front);
    let last = references(texts.last(), 0);
    let names = all_references(texts);
    if at == texts.len() - 1 {
        assert forall|i: int| 0 <= i < last.len() implies agree_on(
            env,
            other,
            #[trigger] last[i],
        ) by {
            assert(names[before.len() + i] == last[i]);
        }
        expansion_reads_only_what_it_names(texts[at], 0, env, other);
    } else {
        assert forall|i: int| 0 <= i < before.len() implies agree_on(
            env,
            other,
            #[trigger] before[i],
        ) by {
            assert(names[i] == before[i]);
        }
        lemma_agree_on_text(front, at, env, other);
    }
}

proof fn lemma_agree_on_args(
    texts: Seq<String>,
    n: int,
    env: Map<Seq<char>, Seq<char>>,
    other: Map<Seq<char>, Seq<char>>,
)
    requires
        0 <= n <= texts.len(),
        forall|i: int|
            0 <= i < texts.len() ==> expanded((#[trigger] texts[i])@, 0, env) == expanded(
                texts[i]@,
                0,
                other,
            ),
    ensures
        all_expanded(texts, n, env) == all_expanded(texts, n, other),
    decreases n,
{
    if n > 0 {
        lemma_agree_on_args(texts, n - 1, env, other);
        assert(expanded(texts[n - 1]@, 0, env) == expanded(texts[n - 1]@, 0, other));
    }
}

proof fn lemma_agree_on_env(
    base: Map<Seq<char>, Seq<char>>,
    pairs: Seq<(String, String)>,
    n: int,
    env: Map<Seq<char>, Seq<char>>,
    other: Map<Seq<char>, Seq<char>>,
)
    requires
        0 <= n <= pairs.len(),
        forall|i: int|
            0 <= i < pairs.len() ==> expanded((#[trigger] pairs[i]).1@, 0, env) == expanded(
                pairs[i].1@,
                0,
                other,
            ),
    ensures
        overlaid(base, pairs, n, env) == overlaid(base, pairs, n, other),
    decreases n,
{
    if n > 0 {
        lemma_agree_on_env(base, pairs, n - 1, env, other);
        assert(expanded(pairs[n - 1].1@, 0, env) == expanded(pairs[n - 1].1@, 0, other));
    }
}

proof fn lemma_agree_on_headers(
    pairs: Seq<(String, String)>,
    n: int,
    env: Map<Seq<char>, Seq<char>>,
    other: Map<Seq<char>, Seq<char>>,
)
    requires
        0 <= n <= pairs.len(),
        forall|i: int|
            0 <= i < pairs.len() ==> expanded((#[trigger] pairs[i]).0@, 0, env) == expanded(
                pairs[i].0@,
                0,
                other,
            ) && expanded(pairs[i].1@, 0, env) == expanded(pairs[i].1@, 0, other),
    ensures
        expanded_headers(pairs, n, env) == expanded_headers(pairs, n, other),
    decreases n,
{
    if n > 0 {
        lemma_agree_on_headers(pairs, n - 1, env, other);
        assert(expanded(pairs[n - 1].0@, 0, env) == expanded(pairs[n - 1].0@, 0, other));
    }
}

proof fn lemma_agree_on_inherited(
    platform: Platform,
    n: int,
    env: Map<Seq<char>, Seq<char>>,
    other: Map<Seq<char>, Seq<char>>,
)
    requires
        0 <= n <= inherited_count(platform),
        agree(env, other, inherited_texts(platform)),
    ensures
        inherited(platform, env, n) == inherited(platform, other, n),
    decreases n,
{
    if n > 0 {
        lemma_agree_on_inherited(platform, n - 1, env, other);
        assert(agree_on(env, other, inherited_texts(platform)[n - 1]));
    }
}

/// Reaching a server reads no variable but those it asks for: environments that agree on these
/// lead to the same launch, the same target and the same fault.
pub proof fn a_connection_reads_only_what_it_asks_for(
    server: ServerConfig,
    platform: Platform,
    env: Map<Seq<char>, Seq<char>>,
    other: Map<Seq<char>, Seq<char>>,
    launch: Result<StdioLaunch, ConfigError>,
    target: Result<HttpTarget, ConfigError>,
)
    requires
        agree(env, other, asked_for(server, platform)),
    ensures
        launches(server, env, platform, launch) == launches(server, other, platform, launch),
        targets(server, env, target) == targets(server, other, target),
{
    let first = inherited_texts(platform);
    let names = asked_for(server, platform);
    let texts = expandable(server);
    let rest = all_references(texts);
    assert forall|i: int| 0 <= i < first.len() implies agree_on(env, other, #[trigger] first[i]) by {
        assert(names[i] == first[i]);
    }
    assert forall|i: int| 0 <= i < rest.len() implies agree_on(env, other, #[trigger] rest[i]) by {
        assert(names[first.len() + i] == rest[i]);
    }
    let command = if_any(opt_view(server.command));
    let args = views(server.args@);
    let values = values_of(server.env@);
    let cwd = if_any(opt_view(server.cwd));
    let keys = names_of(server.headers@);
    let sent = values_of(server.headers@);
    let a = command.len() as int;
    let b = a + args.len();
    let c = b + values.len();
    let d = c + cwd.len();
    let e = d + keys.len();
    let f = e + sent.len();
    if server.command is Some {
        assert(texts[0] == opt_view(server.command)->0);
        lemma_agree_on_text(texts, 0, env, other);
    }
    assert forall|i: int| 0 <= i < server.args@.len() implies expanded(
        (#[trigger] server.args@[i])@,
        0,
        env,
    ) == expanded(server.args@[i]@, 0, other) by {
        assert(texts[a + i] == server.args@[i]@);
        lemma_agree_on_text(texts, a + i, env, other);
    }
    assert forall|i: int| 0 <= i < server.env@.len() implies expanded(
        (#[trigger] server.env@[i]).1@,
        0,
        env,
    ) == expanded(server.env@[i].1@, 0, other) by {
        assert(texts[b + i] == server.env@[i].1@);
        lemma_agree_on_text(texts, b + i, env, other);
    }
    if server.cwd is Some {
        assert(texts[c] == opt_view(server.cwd)->0);
        lemma_agree_on_text(texts, c, env, other);
    }
    assert forall|i: int| 0 <= i < server.headers@.len() implies expanded(
        (#[trigger] server.headers@[i]).0@,
        0,
        env,
    ) == expanded(server.headers@[i].0@, 0, other) && expanded(server.headers@[i].1@, 0, env)
        == expanded(server.headers@[i].1@, 0, other) by {
        assert(texts[d + i] == server.headers@[i].0@);
        assert(texts[e + i] == server.headers@[i].1@);
        lemma_agree_on_text(texts, d + i, env, other);
        lemma_agree_on_text(texts, e + i, env, other);
    }
    if server.url is Some {
        assert(texts[f] == opt_view(server.url)->0);
        lemma_agree_on_text(texts, f, env, other);
    }
    let count = inherited_count(platform);
    lemma_agree_on_args(server.args@, server.args@.len() as int, env, other);
    lemma_agree_on_inherited(platform, count, env, other);
    let base = inherited(platform, env, count);
    lemma_agree_on_env(base, server.env@, server.env@.len() as int, env, other);
    lemma_agree_on_headers(server.headers@, server.headers@.len() as int, env, other);
}

/// Whether a local name is that of one of the allowed remote names.
pub open spec fn is_allowed(label: Seq<char>, allowed: Seq<String>, name: Seq<char>) -> bool {
    exists|i: int| 0 <= i < allowed.len() && namespaced(label, #[trigger] allowed[i]@) == name
}

/// The tools that an allow list lets through, in order.
pub open spec fn allowed_of(
    label: Seq<char>,
    allowed: Option<Seq<String>>,
    tools: Seq<McpTool>,
) -> Seq<McpTool> {
    match allowed {
        None => tools,
        Some(names) => tools.filter(|t: McpTool| is_allowed(label, names, t.name@)),
    }
}

/// Keep only the tools that the server's allow list names; without one, all of them.
pub fn apply_allow_list(label: &str, server: &ServerConfig, tools: Vec<McpTool>) -> (kept: Vec<
    McpTool,
>)
    ensures
        kept@ == allowed_of(
            label@,
            match server.allowed_tools {
                Some(names) => Some(names@),
                None => None,
            },
            tools@,
        ),
{
    let allowed = match &server.allowed_tools {
        None => return tools,
        Some(names) => names,
    };
    let ghost all = tools@;
    let ghost pass = |t: McpTool| is_allowed(label@, allowed@, t.name@);
    let mut rest = tools;
    let mut kept: Vec<McpTool> = Vec::new();
    let ghost mut seen: int = 0;
    assert(all.take(0).filter(pass) =~= seq![]) by {
        reveal(Seq::filter);
    }
    assert(all.skip(0) =~= all);
    while rest.len() > 0
        invariant
            0 <= seen <= all.len(),
            rest@ == all.skip(seen),
            pass == (|t: McpTool| is_allowed(label@, allowed@, t.name@)),
            kept@ == all.take(seen).filter(pass),
        decreases rest@.len(),
    {
        let tool = rest.remove(0);
        proof {
            assert(tool == all[seen]);
            assert(rest@ =~= all.skip(seen + 1));
            assert(all.take(seen + 1).drop_last() =~= all.take(seen));
            reveal(Seq::filter);
            seen = seen + 1;
        }
        if allows(label, allowed, tool.name.as_str()) {
            kept.push(tool);
        }
    }
    assert(all.take(seen) =~= all);
    kept
}

fn allows(label: &str, allowed: &Vec<String>, name: &str) -> (is: bool)
    ensures
        is == is_allowed(label@, allowed@, name@),
{
    let mut i: usize = 0;
    while i < allowed.len()
        invariant
            i <= allowed@.len(),
            forall|k: int|
                0 <= k < i ==> namespaced(label@, #[trigger] allowed@[k]@) != name@,
        decreases allowed@.len() - i,
    {
        let local = local_name(label, allowed[i].as_str());
        if same_text(local.as_str(), name) {
            assert(namespaced(label@, allowed@[i as int]@) == name@);
            return true;
        }
        i += 1;
    }
    false
}

proof fn lemma_first_behind(s: Seq<char>, pattern: Seq<char>, cut: int, from: int)
    requires
        0 <= cut <= s.len(),
        0 <= from <= s.len() - cut,
    ensures
        match first_at(s.skip(cut), pattern, from) {
            Some(at) => first_at(s, pattern, cut + from) == Some(cut + at),
            None => first_at(s, pattern, cut + from) is None,
        },
    decreases s.len() - cut - from,
{
    let rest = s.skip(cut);
    assert(occurs_at(rest, pattern, from) == occurs_at(s, pattern, cut + from)) by {
        if from + pattern.len() <= rest.len() {
            assert(rest.subrange(from, from + pattern.len()) =~= s.subrange(
                cut + from,
                cut + from + pattern.len(),
            ));
        }
    }
    if !occurs_at(rest, pattern, from) {
        if from < rest.len() {
            lemma_first_behind(s, pattern, cut, from + 1);
        } else {
            assert(first_at(rest, pattern, from + 1) is None);
            assert(first_at(s, pattern, cut + from + 1) is None);
        }
    }
}

proof fn lemma_expanded_behind(
    text: Seq<char>,
    cut: int,
    from: int,
    env: Map<Seq<char>, Seq<char>>,
)
    requires
        0 <= cut <= text.len(),
        0 <= from <= text.len() - cut,
        expanded(text.skip(cut), from, env) is Ok,
    ensures
        expanded(text, cut + from, env) == expanded(text.skip(cut), from, env),
    decreases text.len() - cut - from,
{
    let rest = text.skip(cut);
    lemma_references(rest, from);
    lemma_references(text, cut + from);
    lemma_first_behind(text, "${"@, cut, from);
    match first_at(rest, "${"@, from) {
        None => {
            assert(rest.skip(from) =~= text.skip(cut + from));
        },
        Some(start) => {
            lemma_first_behind(text, "}"@, cut, start + 2);
            match first_at(rest, "}"@, start + 2) {
                None => {},
                Some(end) => {
                    assert(rest.subrange(start + 2, end) =~= text.subrange(
                        cut + start + 2,
                        cut + end,
                    ));
                    assert(rest.subrange(from, start) =~= text.subrange(
                        cut + from,
                        cut + start,
                    ));
                    lemma_expanded_behind(text, cut, end + 1, env);
                },
            }
        },
    }
}

/// A reference is replaced by its variable's value and nothing else changes: what stands before it
/// stays, and what follows is expanded in the same way. Where the variable is not set, that is
/// reported, with the whole text.
pub proof fn a_reference_is_replaced_by_its_value(
    before: Seq<char>,
    name: Seq<char>,
    after: Seq<char>,
    env: Map<Seq<char>, Seq<char>>,
)
    requires
        !before.contains('$'),
        !name.contains('}'),
        trimmed(name) == name,
        !"env:"@.is_prefix_of(name),
    ensures
        ({
            let text = before + seq!['$', '{'] + name + seq!['}'] + after;
            &&& env.dom().contains(name) ==> (expanded(after, 0, env) matches Ok(rest) ==> expanded(
                text,
                0,
                env,
            ) == Ok::<Seq<char>, ConfigFault>(before + env[name] + rest))
            &&& !env.dom().contains(name) ==> expanded(text, 0, env) == Err::<
                Seq<char>,
                ConfigFault,
            >(ConfigFault::Undefined(text, name))
        }),
{
    reveal_strlit("${");
    reveal_strlit("}");
    let text = before + seq!['$', '{'] + name + seq!['}'] + after;
    let start = before.len() as int;
    let end = start + 2 + name.len();
    lemma_references(text, 0);
    lemma_first_at(text, "${"@, 0);
    assert(text.subrange(start, start + 2) =~= "${"@);
    assert(occurs_at(text, "${"@, start));
    assert forall|k: int| 0 <= k < start implies !#[trigger] occurs_at(text, "${"@, k) by {
        if occurs_at(text, "${"@, k) {
            assert(text.subrange(k, k + 2)[0] == '$');
            assert(text[k] == before[k]);
            assert(before.contains(before[k]));
        }
    }
    assert(first_at(text, "${"@, 0) == Some(start));
    lemma_first_at(text, "}"@, start + 2);
    assert(text.subrange(end, end + 1) =~= "}"@);
    assert(occurs_at(text, "}"@, end));
    assert forall|k: int| start + 2 <= k < end implies !#[trigger] occurs_at(text, "}"@, k) by {
        if occurs_at(text, "}"@, k) {
            assert(text.subrange(k, k + 1)[0] == '}');
            assert(text[k] == name[k - start - 2]);
            assert(name.contains(name[k - start - 2]));
        }
    }
    assert(first_at(text, "}"@, start + 2) == Some(end));
    assert(text.subrange(start + 2, end) =~= name);
    assert(text.subrange(0, start) =~= before);
    assert(text.skip(end + 1) =~= after);
    if expanded(after, 0, env) is Ok {
        lemma_expanded_behind(text, end + 1, 0, env);
    }
}

proof fn lemma_overlaid_value(
    base: Map<Seq<char>, Seq<char>>,
    pairs: Seq<(String, String)>,
    n: int,
    env: Map<Seq<char>, Seq<char>>,
    i: int,
)
    requires
        in_name_order(pairs),
        0 <= i < n <= pairs.len(),
        overlaid(base, pairs, n, env) is Ok,
    ensures
        ({
            let seen = overlaid(base, pairs, n, env)->Ok_0;
            seen.dom().contains(pairs[i].0@) && expanded(pairs[i].1@, 0, env) == Ok::<
                Seq<char>,
                ConfigFault,
            >(seen[pairs[i].0@])
        }),
    decreases n,
{
    if i < n - 1 {
        lemma_overlaid_value(base, pairs, n - 1, env, i);
        assert(precedes(pairs[i].0@, pairs[n - 1].0@));
        lemma_precedes_irreflexive(pairs[i].0@);
    }
}

proof fn lemma_overlaid_keeps(
    base: Map<Seq<char>, Seq<char>>,
    pairs: Seq<(String, String)>,
    n: int,
    env: Map<Seq<char>, Seq<char>>,
    name: Seq<char>,
)
    requires
        0 <= n <= pairs.len(),
        overlaid(base, pairs, n, env) is Ok,
        base.dom().contains(name),
        forall|i: int| 0 <= i < n ==> (#[trigger] pairs[i]).0@ != name,
    ensures
        ({
            let seen = overlaid(base, pairs, n, env)->Ok_0;
            seen.dom().contains(name) && seen[name] == base[name]
        }),
    decreases n,
{
    if n > 0 {
        lemma_overlaid_keeps(base, pairs, n - 1, env, name);
        assert(pairs[n - 1].0@ != name);
    }
}

proof fn lemma_inherited_value(
    platform: Platform,
    env: Map<Seq<char>, Seq<char>>,
    n: int,
    i: int,
)
    requires
        0 <= i < n,
        env.dom().contains(inherited_name(platform, i)),
    ensures
        inherited(platform, env, n).dom().contains(inherited_name(platform, i)),
        inherited(platform, env, n)[inherited_name(platform, i)] == env[inherited_name(
            platform,
            i,
        )],
    decreases n,
{
    if i < n - 1 {
        lemma_inherited_value(platform, env, n - 1, i);
    }
}

/// A spawned server is given all it should be: every variable its entry declares, with its value
/// expanded, and every inherited one that is set and not declared anew, as it is.
pub proof fn a_server_is_given_what_it_needs(
    server: ServerConfig,
    env: Map<Seq<char>, Seq<char>>,
    platform: Platform,
    i: int,
)
    requires
        server.wf(),
        server_env(server, env, platform) is Ok,
    ensures
        ({
            let seen = server_env(server, env, platform)->Ok_0;
            &&& 0 <= i < server.env@.len() ==> seen.dom().contains(server.env@[i].0@) && expanded(
                server.env@[i].1@,
                0,
                env,
            ) == Ok::<Seq<char>, ConfigFault>(seen[server.env@[i].0@])
            &&& 0 <= i < inherited_count(platform) && env.dom().contains(
                inherited_name(platform, i),
            ) && (forall|k: int|
                0 <= k < server.env@.len() ==> (#[trigger] server.env@[k]).0@ != inherited_name(
                    platform,
                    i,
                )) ==> seen.dom().contains(inherited_name(platform, i)) && seen[inherited_name(
                platform,
                i,
            )] == env[inherited_name(platform, i)]
        }),
{
    let count = inherited_count(platform);
    let base = inherited(platform, env, count);
    let n = server.env@.len() as int;
    if 0 <= i < n {
        lemma_overlaid_value(base, server.env@, n, env, i);
    }
    if 0 <= i < count && env.dom().contains(inherited_name(platform, i)) && forall|k: int|
        0 <= k < n ==> (#[trigger] server.env@[k]).0@ != inherited_name(platform, i) {
        lemma_inherited_value(platform, env, count, i);
        lemma_overlaid_keeps(base, server.env@, n, env, inherited_name(platform, i));
    }
}

/// A text is expanded from the environment alone: one without a reference stays as it is, and a
/// reference to a variable gives its value in that place.
pub proof fn a_text_is_expanded_in_place(
    text: &str,
    env: &Vec<(String, String)>,
    out: Result<String, ConfigError>,
    before: Seq<char>,
    name: Seq<char>,
    after: Seq<char>,
)
    requires
        call_ensures(expand, (text, env), out),
    ensures
        !occurs_in(text@, "${"@) ==> (out matches Ok(found) && found@ == text@),
        text@ == before + seq!['$', '{'] + name + seq!['}'] + after && !before.contains('$')
            && !name.contains('}') && trimmed(name) == name && !"env:"@.is_prefix_of(name)
            && !occurs_in(after, "${"@) ==> if table(env@).dom().contains(name) {
            out matches Ok(found) && found@ == before + table(env@)[name] + after
        } else {
            out matches Err(ConfigError::Undefined { name: missing, .. }) && missing@ == name
        },
{
    if !occurs_in(text@, "${"@) {
        plain_text_expands_to_itself(text@, table(env@));
    }
    if text@ == before + seq!['$', '{'] + name + seq!['}'] + after && !before.contains('$')
        && !name.contains('}') && trimmed(name) == name && !"env:"@.is_prefix_of(name)
        && !occurs_in(after, "${"@) {
        plain_text_expands_to_itself(after, table(env@));
        a_reference_is_replaced_by_its_value(before, name, after, table(env@));
    }
}

/// A spawned server sees the variables its entry declares and the inherited ones, and none besides.
pub proof fn a_server_is_spawned_with_its_own_environment(
    server: &ServerConfig,
    env: &Vec<(String, String)>,
    platform: Platform,
    out: Result<Vec<(String, String)>, ConfigError>,
    name: Seq<char>,
)
    requires
        call_ensures(stdio_env, (server, env, platform), out),
        out matches Ok(seen) && table(seen@).dom().contains(name),
    ensures
        (exists|i: int|
            0 <= i < inherited_count(platform) && #[trigger] inherited_name(platform, i) == name)
            || (exists|i: int|
            0 <= i < server.env@.len() && (#[trigger] server.env@[i]).0@ == name),
{
    a_server_sees_only_what_it_is_given(*server, table(env@), platform, name);
}

/// Without an allow list every tool is offered; with one, exactly those it names, in their order.
pub proof fn an_allow_list_lets_through_what_it_names(
    label: Seq<char>,
    allowed: Option<Seq<String>>,
    tools: Seq<McpTool>,
    tool: McpTool,
)
    ensures
        allowed is None ==> allowed_of(label, allowed, tools) == tools,
        allowed matches Some(names) ==> allowed_of(label, allowed, tools).contains(tool) == (
        tools.contains(tool) && exists|i: int|
            0 <= i < names.len() && namespaced(label, (#[trigger] names[i])@) == tool.name@),
    decreases tools.len(),
{
    match allowed {
        Some(names) => {
            let keep = |t: McpTool| is_allowed(label, names, t.name@);
            reveal(Seq::filter);
            let kept = allowed_of(label, allowed, tools);
            if tools.len() > 0 {
                let front = tools.drop_last();
                let last = tools.last();
                an_allow_list_lets_through_what_it_names(label, allowed, front, tool);
                let before = allowed_of(label, allowed, front);
                assert(before == front.filter(keep));
                assert(kept == if keep(last) {
                    before.push(last)
                } else {
                    before
                });
                if before.contains(tool) {
                    let i = choose|i: int| 0 <= i < before.len() && before[i] == tool;
                    assert(kept[i] == tool);
                }
                if front.contains(tool) {
                    let i = choose|i: int| 0 <= i < front.len() && front[i] == tool;
                    assert(tools[i] == tool);
                }
                if last == tool {
                    assert(tools[tools.len() - 1] == tool);
                    if keep(tool) {
                        assert(kept[before.len() as int] == tool);
                    }
                }
                if tools.contains(tool) && last != tool {
                    let i = choose|i: int| 0 <= i < tools.len() && tools[i] == tool;
                    assert(front[i] == tool);
                }
                if kept.contains(tool) {
                    let i = choose|i: int| 0 <= i < kept.len() && kept[i] == tool;
                    if i < before.len() {
                        assert(before[i] == tool);
                    }
                }
            }
        },
        None => {},
    }
}

/// A transport is named in any case.
pub proof fn a_transport_is_named_in_any_case(word: Seq<char>, other: Seq<char>)
    requires
        lowered(word) == lowered(other),
    ensures
        transport_named(word) == transport_named(other),
{
}

proof fn lemma_all_expanded_each(
    texts: Seq<String>,
    n: int,
    env: Map<Seq<char>, Seq<char>>,
    i: int,
)
    requires
        0 <= i < n <= texts.len(),
        all_expanded(texts, n, env) is Ok,
    ensures
        all_expanded(texts, n, env)->Ok_0.len() == n,
        expanded(texts[i]@, 0, env) == Ok::<Seq<char>, ConfigFault>(
            all_expanded(texts, n, env)->Ok_0[i],
        ),
    decreases n,
{
    if i < n - 1 {
        lemma_all_expanded_each(texts, n - 1, env, i);
    } else if n > 1 {
        lemma_all_expanded_each(texts, n - 1, env, 0);
    }
}

/// A server is started as its entry says: its command, every argument in its place and its
/// directory, each expanded, in the environment that is its own.
pub proof fn a_server_is_started_as_its_entry_says(
    server: ServerConfig,
    env: Map<Seq<char>, Seq<char>>,
    platform: Platform,
    launch: StdioLaunch,
    i: int,
)
    requires
        launches(server, env, platform, Ok(launch)),
    ensures
        server.command matches Some(command) && expanded(command@, 0, env) == Ok::<
            Seq<char>,
            ConfigFault,
        >(launch.program@),
        0 <= i < server.args@.len() ==> launch.args@.len() == server.args@.len() && expanded(
            server.args@[i]@,
            0,
            env,
        ) == Ok::<Seq<char>, ConfigFault>(launch.args@[i]@),
        server_env(server, env, platform) == Ok::<Map<Seq<char>, Seq<char>>, ConfigFault>(
            table(launch.env@),
        ),
        server.cwd is None == launch.cwd is None,
        server.cwd matches Some(cwd) ==> expanded(cwd@, 0, env) == Ok::<Seq<char>, ConfigFault>(
            launch.cwd->0@,
        ),
{
    if 0 <= i < server.args@.len() {
        lemma_all_expanded_each(server.args@, server.args@.len() as int, env, i);
        assert(views(launch.args@)[i] == launch.args@[i]@);
    }
}

proof fn lemma_expanded_header(
    headers: Seq<(String, String)>,
    n: int,
    env: Map<Seq<char>, Seq<char>>,
    i: int,
)
    requires
        0 <= i < n <= headers.len(),
        expanded_headers(headers, n, env) is Ok,
    ensures
        expanded(headers[i].0@, 0, env) is Ok,
        expanded(headers[i].1@, 0, env) is Ok,
        expanded_headers(headers, n, env)->Ok_0.dom().contains(
            expanded(headers[i].0@, 0, env)->Ok_0,
        ),
    decreases n,
{
    if i < n - 1 {
        lemma_expanded_header(headers, n - 1, env, i);
    }
}

/// A server is reached where its entry says, and every header of it goes along.
pub proof fn a_server_is_reached_as_its_entry_says(
    server: ServerConfig,
    env: Map<Seq<char>, Seq<char>>,
    target: HttpTarget,
    i: int,
)
    requires
        targets(server, env, Ok(target)),
    ensures
        server.url matches Some(url) && expanded(url@, 0, env) == Ok::<Seq<char>, ConfigFault>(
            target.url@,
        ),
        0 <= i < server.headers@.len() ==> expanded(server.headers@[i].0@, 0, env) is Ok && table(
            target.headers@,
        ).dom().contains(expanded(server.headers@[i].0@, 0, env)->Ok_0),
{
    if 0 <= i < server.headers@.len() {
        lemma_expanded_header(server.headers@, server.headers@.len() as int, env, i);
    }
}

} // verus!

//! Keeping the built-in filesystem tools inside a workspace.
//!
//! A call is refused when its path argument resolves outside the workspace root. What a path
//! resolves to depends on the disk: the decisions are taken here, and looking a prefix up is
//! the caller's part, one probe at a time.

use vstd::prelude::*;

use crate::agent::{ToolCallDecision, ToolCallView, ToolResultStatus};
use crate::json::{string_field, Json};
use crate::path::{
    a_path_is_its_segments, is_absolute, joined_names_split_again, segments, split_path,
    starts_at_root,
};
use crate::text::{join, joined, same_text, views};
use crate::tools::{file_delete, file_list, file_read, file_upzip, read_image};

verus! {

/// A path whose `.` and `..` have been resolved by name alone.
#[derive(Debug, PartialEq, Eq)]
pub struct LexicalPath {
    pub absolute: bool,
    pub parts: Vec<String>,
}

/// A [`LexicalPath`] by its contents.
#[verifier::ext_equal]
pub struct Place {
    pub absolute: bool,
    pub parts: Seq<Seq<char>>,
}

impl View for LexicalPath {
    type V = Place;

    open spec fn view(&self) -> Place {
        Place { absolute: self.absolute, parts: views(self.parts@) }
    }
}

/// Whether a segment of a path is a name, rather than nothing, `.` or `..`.
pub open spec fn is_name(segment: Seq<char>) -> bool {
    segment != ""@ && segment != "."@ && segment != ".."@
}

/// Where one gets from `parts` by walking `segments`: `..` goes one name up, and stays at the
/// top.
pub open spec fn walked(parts: Seq<Seq<char>>, segments: Seq<Seq<char>>) -> Seq<Seq<char>>
    decreases segments.len(),
{
    if segments.len() == 0 {
        parts
    } else {
        let before = walked(parts, segments.drop_last());
        if is_name(segments.last()) {
            before.push(segments.last())
        } else if segments.last() == ".."@ && before.len() > 0 {
            before.drop_last()
        } else {
            before
        }
    }
}

/// A path with its `.` and `..` resolved by name alone.
pub open spec fn normal_form(path: Seq<char>) -> Place {
    Place { absolute: is_absolute(path), parts: walked(seq![], segments(path)) }
}

/// A path taken from `base`, unless it starts at the root itself.
pub open spec fn normal_form_from(base: Place, path: Seq<char>) -> Place {
    if is_absolute(path) {
        normal_form(path)
    } else {
        Place { absolute: base.absolute, parts: walked(base.parts, segments(path)) }
    }
}

/// Whether `place` is `root` or lies under it.
pub open spec fn lies_under(place: Place, root: Place) -> bool {
    if !root.absolute && root.parts.len() == 0 {
        true
    } else {
        place.absolute == root.absolute && root.parts.is_prefix_of(place.parts)
    }
}

/// A place as text.
pub open spec fn place_text(place: Place) -> Seq<char> {
    if place.absolute {
        "/"@ + joined(place.parts, "/"@)
    } else {
        joined(place.parts, "/"@)
    }
}

/// A normal form holds names only: no `..` survives to lead out of where it seems to lie.
pub proof fn normal_form_holds_only_names(path: Seq<char>)
    ensures
        forall|i: int|
            0 <= i < normal_form(path).parts.len() ==> is_name(
                #[trigger] normal_form(path).parts[i],
            ),
{
    lemma_walked_names(seq![], segments(path));
}

proof fn lemma_walked_names(parts: Seq<Seq<char>>, segments: Seq<Seq<char>>)
    requires
        forall|i: int| 0 <= i < parts.len() ==> is_name(#[trigger] parts[i]),
    ensures
        forall|i: int|
            0 <= i < walked(parts, segments).len() ==> is_name(
                #[trigger] walked(parts, segments)[i],
            ),
    decreases segments.len(),
{
    if segments.len() > 0 {
        lemma_walked_names(parts, segments.drop_last());
        let before = walked(parts, segments.drop_last());
        assert forall|i: int| 0 <= i < walked(parts, segments).len() implies is_name(
            #[trigger] walked(parts, segments)[i],
        ) by {
            if i < before.len() {
                assert(is_name(before[i]));
            }
        }
    }
}

/// Resolving names that need no resolving changes nothing.
pub proof fn resolving_is_idempotent(parts: Seq<Seq<char>>)
    requires
        forall|i: int| 0 <= i < parts.len() ==> is_name(#[trigger] parts[i]),
    ensures
        walked(seq![], parts) == parts,
    decreases parts.len(),
{
    if parts.len() > 0 {
        let front = parts.drop_last();
        assert forall|i: int| 0 <= i < front.len() implies is_name(#[trigger] front[i]) by {
            assert(front[i] == parts[i]);
        }
        resolving_is_idempotent(front);
        assert(is_name(parts[parts.len() - 1]));
        assert(walked(seq![], parts) =~= parts);
    }
}

/// Walk `segments` from `parts`.
fn walk(parts: &mut Vec<String>, segments: Vec<String>)
    ensures
        views(final(parts)@) == walked(views(old(parts)@), views(segments@)),
{
    let mut i: usize = 0;
    assert(views(segments@).take(0) =~= seq![]);
    while i < segments.len()
        invariant
            i <= segments@.len(),
            views(parts@) == walked(views(old(parts)@), views(segments@).take(i as int)),
        decreases segments@.len() - i,
    {
        let ghost before = parts@;
        let segment = &segments[i];
        proof {
            let next = views(segments@).take(i + 1);
            assert(next.drop_last() =~= views(segments@).take(i as int));
            assert(next.last() == segment@);
            reveal_strlit("");
            reveal_strlit(".");
            reveal_strlit("..");
            assert(""@.len() != ".."@.len());
            assert("."@.len() != ".."@.len());
        }
        if same_text(segment.as_str(), "..") {
            if parts.len() > 0 {
                let _ = parts.pop();
                assert(views(parts@) =~= views(before).drop_last());
            }
        } else if !same_text(segment.as_str(), "") && !same_text(segment.as_str(), ".") {
            parts.push(segment.clone());
            assert(views(parts@) =~= views(before).push(segment@));
        }
        i += 1;
    }
    assert(views(segments@).take(i as int) =~= views(segments@));
}

/// Resolve `.` and `..` without touching the disk: enough to catch a plain escape even where
/// nothing on disk backs the path yet.
pub fn lexical_normalize(path: &str) -> (place: LexicalPath)
    ensures
        place@ == normal_form(path@),
{
    let mut parts: Vec<String> = Vec::new();
    walk(&mut parts, split_path(path));
    assert(views(Seq::<String>::empty()) =~= seq![]);
    LexicalPath { absolute: starts_at_root(path), parts }
}

impl LexicalPath {
    fn duplicate(&self) -> (copy: Self)
        ensures
            copy@ == self@,
    {
        LexicalPath { absolute: self.absolute, parts: copy_texts(&self.parts, 0, self.parts.len()) }
    }

    /// A path taken from this one, unless it starts at the root itself.
    pub fn join(&self, path: &str) -> (place: LexicalPath)
        ensures
            place@ == normal_form_from(self@, path@),
    {
        if starts_at_root(path) {
            return lexical_normalize(path);
        }
        let mut parts = self.duplicate().parts;
        walk(&mut parts, split_path(path));
        LexicalPath { absolute: self.absolute, parts }
    }

    /// Whether this is `root` or lies under it.
    pub fn starts_with(&self, root: &LexicalPath) -> (under: bool)
        ensures
            under == lies_under(self@, root@),
    {
        if !root.absolute && root.parts.len() == 0 {
            return true;
        }
        if self.absolute != root.absolute || root.parts.len() > self.parts.len() {
            return false;
        }
        let mut i: usize = 0;
        while i < root.parts.len()
            invariant
                i <= root.parts@.len() <= self.parts@.len(),
                forall|k: int| 0 <= k < i ==> self.parts@[k]@ == #[trigger] root.parts@[k]@,
            decreases root.parts@.len() - i,
        {
            if !same_text(self.parts[i].as_str(), root.parts[i].as_str()) {
                proof {
                    assert(views(self.parts@)[i as int] != views(root.parts@)[i as int]);
                    assert(views(self.parts@).take(root.parts@.len() as int)[i as int]
                        == views(self.parts@)[i as int]);
                }
                return false;
            }
            i += 1;
        }
        proof {
            assert forall|k: int| 0 <= k < root.parts@.len() implies views(self.parts@)[k]
                == #[trigger] views(root.parts@)[k] by {
                assert(self.parts@[k]@ == root.parts@[k]@);
            }
            assert(views(self.parts@).take(root.parts@.len() as int) =~= views(root.parts@));
        }
        true
    }

    /// The path as text.
    pub fn display(&self) -> (text: String)
        ensures
            text@ == place_text(self@),
    {
        let inner = join(&self.parts, "/");
        if self.absolute {
            let mut text = "/".to_owned();
            text.append(inner.as_str());
            text
        } else {
            inner
        }
    }
}

/// Copies of the texts from `from` up to `to`.
fn copy_texts(texts: &Vec<String>, from: usize, to: usize) -> (copies: Vec<String>)
    requires
        from <= to <= texts@.len(),
    ensures
        views(copies@) == views(texts@).subrange(from as int, to as int),
{
    let mut copies: Vec<String> = Vec::new();
    let mut i: usize = from;
    while i < to
        invariant
            from <= i <= to <= texts@.len(),
            views(copies@) =~= views(texts@).subrange(from as int, i as int),
        decreases to - i,
    {
        let ghost before = copies@;
        copies.push(texts[i].clone());
        assert(views(copies@) =~= views(before).push(texts@[i as int]@));
        i += 1;
    }
    copies
}

/// What a path was found to resolve to.
#[derive(Debug, PartialEq, Eq)]
pub struct Resolved {
    pub place: LexicalPath,
    /// Whether the disk backs the whole path; its text then ends in a separator.
    pub exists: bool,
}

/// What is shown of a resolved path.
pub open spec fn resolved_text(place: Place, exists: bool) -> Seq<char> {
    if exists && place.parts.len() > 0 {
        place_text(place) + "/"@
    } else {
        place_text(place)
    }
}

impl Resolved {
    /// The resolved path as text.
    pub fn display(&self) -> (text: String)
        ensures
            text@ == resolved_text(self.place@, self.exists),
    {
        let mut text = self.place.display();
        if self.exists && self.place.parts.len() > 0 {
            text.append("/");
        }
        text
    }
}

/// A path on its way to being resolved: its prefixes are looked up on disk, the longest first,
/// and the first that exists is taken for what it really is, the rest of the path behind it.
pub struct Resolution {
    place: LexicalPath,
    kept: usize,
    over: bool,
}

/// The prefix of `place` that holds its first `kept` names.
pub open spec fn prefix_of(place: Place, kept: int) -> Place {
    Place { absolute: place.absolute, parts: place.parts.take(kept) }
}

/// `place` with its first `kept` names replaced by what they resolve to.
pub open spec fn reattached(place: Place, kept: int, canonical: Place) -> Place {
    Place { absolute: canonical.absolute, parts: canonical.parts + place.parts.skip(kept) }
}

/// What became of a lookup.
pub enum Lookup {
    Done(Resolved),
    Continue(Resolution),
}

impl Resolution {
    /// The path that is being resolved.
    pub closed spec fn of(&self) -> Place {
        self.place@
    }

    /// How many names the prefix to look up next holds; nothing where none is left.
    pub closed spec fn next(&self) -> Option<int> {
        if self.over {
            None
        } else {
            Some(self.kept as int)
        }
    }

    /// The number of names in the prefix fits the path.
    pub closed spec fn wf(&self) -> bool {
        self.kept <= self.place.parts@.len()
    }

    /// Start with the whole path. A relative path without a name has nothing to look up.
    pub fn start(place: LexicalPath) -> (resolution: Self)
        ensures
            resolution.wf(),
            resolution.of() == place@,
            resolution.next() == if !place.absolute && place@.parts.len() == 0 {
                None
            } else {
                Some(place@.parts.len() as int)
            },
    {
        let kept: usize = place.parts.len();
        let over = !place.absolute && kept == 0;
        Resolution { place, kept, over }
    }

    /// The prefix to look up next, as text; nothing where none is left.
    pub fn probe(&self) -> (prefix: Option<String>)
        requires
            self.wf(),
        ensures
            match prefix {
                Some(text) => self.next() matches Some(kept) && text@ == place_text(
                    prefix_of(self.of(), kept),
                ),
                None => self.next() is None,
            },
    {
        if self.over {
            return None;
        }
        let front = LexicalPath {
            absolute: self.place.absolute,
            parts: copy_texts(&self.place.parts, 0, self.kept),
        };
        proof {
            assert(views(self.place.parts@).subrange(0, self.kept as int) =~= views(
                self.place.parts@,
            ).take(self.kept as int));
        }
        Some(front.display())
    }

    /// Go on with what looking the prefix up gave: its canonical form where it exists.
    ///
    /// A prefix that exists ends the search; one that does not is shortened by a name, down to
    /// the root or to the first name. Where nothing exists the path stays as it is.
    pub fn advance(self, canonical: Option<&str>) -> (lookup: Lookup)
        requires
            self.wf(),
            self.next() is Some,
        ensures
            ({
                let kept = self.next()->0;
                let least = if self.of().absolute {
                    0
                } else {
                    1int
                };
                match canonical {
                    Some(text) => lookup matches Lookup::Done(resolved) && resolved.place@
                        == reattached(self.of(), kept, normal_form(text@)) && resolved.exists == (
                    kept == self.of().parts.len()),
                    None => if kept <= least {
                        lookup matches Lookup::Done(resolved) && resolved.place@ == self.of()
                            && !resolved.exists
                    } else {
                        lookup matches Lookup::Continue(next) && next.wf() && next.of()
                            == self.of() && next.next() == Some(kept - 1)
                    },
                }
            }),
    {
        let least: usize = if self.place.absolute {
            0
        } else {
            1
        };
        match canonical {
            Some(text) => {
                let found = lexical_normalize(text);
                let mut parts = found.parts;
                let mut rest = copy_texts(&self.place.parts, self.kept, self.place.parts.len());
                proof {
                    assert(views(parts@ + rest@) =~= views(parts@) + views(rest@));
                    assert(views(rest@) =~= views(self.place.parts@).skip(self.kept as int));
                }
                parts.append(&mut rest);
                let exists = self.kept == self.place.parts.len();
                Lookup::Done(
                    Resolved { place: LexicalPath { absolute: found.absolute, parts }, exists },
                )
            },
            None => {
                if self.kept <= least {
                    Lookup::Done(Resolved { place: self.place, exists: false })
                } else {
                    Lookup::Continue(
                        Resolution { place: self.place, kept: self.kept - 1, over: false },
                    )
                }
            },
        }
    }
}

/// The arguments of a tool that name a path to check; none of a tool that is not guarded.
pub open spec fn fields_of(tool: Seq<char>) -> Seq<Seq<char>> {
    if tool == file_delete::NAME@ || tool == file_read::NAME@ || tool == read_image::NAME@ {
        seq!["file_path"@]
    } else if tool == file_list::NAME@ {
        seq!["path"@]
    } else if tool == file_upzip::NAME@ {
        seq!["zip_path"@, "extract_to"@]
    } else {
        seq![]
    }
}

/// The paths that a call names in the first fields of `fields`, in order. A field that is
/// missing or is not a text is left to the tool to reject.
pub open spec fn named_paths(arguments: Json, fields: Seq<Seq<char>>) -> Seq<Seq<char>>
    decreases fields.len(),
{
    if fields.len() == 0 {
        seq![]
    } else {
        let before = named_paths(arguments, fields.drop_last());
        match string_field(arguments, fields.last()) {
            Some(path) => before.push(path),
            None => before,
        }
    }
}

/// The first of some resolved paths that lies outside `root`.
pub open spec fn first_outside(resolved: Seq<Resolved>, root: Place, from: int) -> Option<int>
    decreases resolved.len() - from,
{
    if from >= resolved.len() {
        None
    } else if !lies_under(resolved[from].place@, root) {
        Some(from)
    } else {
        first_outside(resolved, root, from + 1)
    }
}

/// Why a path is refused.
pub open spec fn outside_reason(
    candidate: Seq<char>,
    resolved: Resolved,
    root: Place,
) -> Seq<char> {
    "`"@ + candidate + "` resolves to `"@ + resolved_text(resolved.place@, resolved.exists)
        + "`, outside the workspace root `"@ + place_text(root) + "`"@
}

/// Refuses filesystem calls that lead outside a workspace.
pub struct WorkspaceGuardCallback {
    root: LexicalPath,
}

impl WorkspaceGuardCallback {
    /// The workspace root.
    pub closed spec fn workspace(&self) -> Place {
        self.root@
    }

    /// Guard the workspace whose canonical path is `canonical_root`.
    pub fn new(canonical_root: &str) -> (guard: Self)
        ensures
            guard.workspace() == normal_form(canonical_root@),
    {
        WorkspaceGuardCallback { root: lexical_normalize(canonical_root) }
    }

    /// The arguments of a guarded tool that name a path.
    pub fn guarded_fields(tool_name: &str) -> (fields: Vec<String>)
        ensures
            views(fields@) == fields_of(tool_name@),
    {
        let mut fields: Vec<String> = Vec::new();
        if same_text(tool_name, file_delete::NAME) || same_text(tool_name, file_read::NAME)
            || same_text(tool_name, read_image::NAME) {
            fields.push("file_path".to_owned());
        } else if same_text(tool_name, file_list::NAME) {
            fields.push("path".to_owned());
        } else if same_text(tool_name, file_upzip::NAME) {
            fields.push("zip_path".to_owned());
            fields.push("extract_to".to_owned());
        }
        assert(views(fields@) =~= fields_of(tool_name@));
        fields
    }

    /// The paths that a call names, in the order they are checked.
    pub fn candidates(call: &ToolCallView<'_>) -> (paths: Vec<String>)
        ensures
            views(paths@) == named_paths(*call.arguments, fields_of(call.name@)),
    {
        let fields = WorkspaceGuardCallback::guarded_fields(call.name);
        let mut paths: Vec<String> = Vec::new();
        let mut i: usize = 0;
        assert(views(fields@).take(0) =~= seq![]);
        assert(views(paths@) =~= seq![]);
        while i < fields.len()
            invariant
                i <= fields@.len(),
                views(paths@) == named_paths(*call.arguments, views(fields@).take(i as int)),
            decreases fields@.len() - i,
        {
            proof {
                let next = views(fields@).take(i + 1);
                assert(next.drop_last() =~= views(fields@).take(i as int));
                assert(next.last() == fields@[i as int]@);
            }
            let ghost before = paths@;
            match call.arguments.get_str(fields[i].as_str()) {
                Some(path) => {
                    paths.push(path.to_owned());
                    assert(views(paths@) =~= views(before).push(path@));
                },
                None => {},
            }
            i += 1;
        }
        assert(views(fields@).take(i as int) =~= views(fields@));
        paths
    }

    /// What a named path stands for before the disk is asked: taken from the workspace root
    /// unless it starts at the root of the disk.
    pub fn requested(&self, candidate: &str) -> (place: LexicalPath)
        ensures
            place@ == normal_form_from(self.workspace(), candidate@),
    {
        self.root.join(candidate)
    }

    /// Why a named path that resolves to `resolved` is refused; nothing where it stays inside
    /// the workspace.
    pub fn violation(&self, candidate: &str, resolved: &Resolved) -> (reason: Option<String>)
        ensures
            match reason {
                Some(text) => !lies_under(resolved.place@, self.workspace()) && text@
                    == outside_reason(candidate@, *resolved, self.workspace()),
                None => lies_under(resolved.place@, self.workspace()),
            },
    {
        if resolved.place.starts_with(&self.root) {
            return None;
        }
        let mut text = "`".to_owned();
        text.append(candidate);
        text.append("` resolves to `");
        text.append(resolved.display().as_str());
        text.append("`, outside the workspace root `");
        text.append(self.root.display().as_str());
        text.append("`");
        Some(text)
    }

    /// Decide about a call that names `candidates`, which resolve to `resolved`: the first that
    /// lies outside the workspace refuses it.
    pub fn decide(&self, candidates: &Vec<String>, resolved: &Vec<Resolved>) -> (decision:
        ToolCallDecision)
        requires
            candidates@.len() == resolved@.len(),
        ensures
            match first_outside(resolved@, self.workspace(), 0) {
                None => decision == ToolCallDecision::Proceed,
                Some(i) => decision matches ToolCallDecision::ShortCircuit(
                    ToolResultStatus::Error,
                    content,
                ) && content@ == "Denied: "@ + outside_reason(
                    candidates@[i]@,
                    resolved@[i],
                    self.workspace(),
                )
                    + ". This tool is restricted to the workspace root; ask for a path inside it."@,
            },
    {
        let mut i: usize = 0;
        while i < candidates.len()
            invariant
                candidates@.len() == resolved@.len(),
                i <= candidates@.len(),
                first_outside(resolved@, self.workspace(), 0) == first_outside(
                    resolved@,
                    self.workspace(),
                    i as int,
                ),
            decreases candidates@.len() - i,
        {
            match self.violation(candidates[i].as_str(), &resolved[i]) {
                Some(reason) => {
                    let mut content = "Denied: ".to_owned();
                    content.append(reason.as_str());
                    content.append(
                        ". This tool is restricted to the workspace root; ask for a path inside it.",
                    );
                    return ToolCallDecision::deny(content);
                },
                None => {},
            }
            i += 1;
        }
        ToolCallDecision::Proceed
    }
}

/// A call runs only if every path it names resolves inside the workspace.
pub proof fn a_guarded_call_stays_inside(resolved: Seq<Resolved>, root: Place, from: int)
    requires
        0 <= from,
    ensures
        first_outside(resolved, root, from) is None == forall|i: int|
            from <= i < resolved.len() ==> lies_under(#[trigger] resolved[i].place@, root),
    decreases resolved.len() - from,
{
    if from < resolved.len() {
        if lies_under(resolved[from].place@, root) {
            a_guarded_call_stays_inside(resolved, root, from + 1);
        }
    }
}

/// Walking goes segment by segment: a name goes one down, `..` one up unless at the top, and
/// anything else nowhere.
pub proof fn walking_goes_step_by_step(
    parts: Seq<Seq<char>>,
    left: Seq<Seq<char>>,
    right: Seq<Seq<char>>,
    segment: Seq<char>,
)
    ensures
        walked(parts, left + right) == walked(walked(parts, left), right),
        walked(parts, seq![]) == parts,
        walked(parts, seq![segment]) == if segment == ".."@ {
            if parts.len() > 0 {
                parts.drop_last()
            } else {
                parts
            }
        } else if segment == ""@ || segment == "."@ {
            parts
        } else {
            parts.push(segment)
        },
    decreases right.len(),
{
    reveal_strlit("");
    reveal_strlit(".");
    reveal_strlit("..");
    assert(""@.len() != ".."@.len());
    assert("."@.len() != ".."@.len());
    reveal_with_fuel(walked, 2);
    assert(seq![segment].drop_last() =~= seq![]);
    if right.len() == 0 {
        assert(left + right =~= left);
    } else {
        assert((left + right).drop_last() =~= left + right.drop_last());
        walking_goes_step_by_step(parts, left, right.drop_last(), segment);
    }
}

proof fn lemma_walked_hold_no_separator(parts: Seq<Seq<char>>, segments: Seq<Seq<char>>)
    requires
        forall|i: int| 0 <= i < parts.len() ==> !(#[trigger] parts[i]).contains('/'),
        forall|i: int| 0 <= i < segments.len() ==> !(#[trigger] segments[i]).contains('/'),
    ensures
        forall|i: int|
            0 <= i < walked(parts, segments).len() ==> !(#[trigger] walked(
                parts,
                segments,
            )[i]).contains('/'),
    decreases segments.len(),
{
    if segments.len() > 0 {
        let front = segments.drop_last();
        assert forall|i: int| 0 <= i < front.len() implies !(#[trigger] front[i]).contains('/') by {
            assert(front[i] == segments[i]);
        }
        lemma_walked_hold_no_separator(parts, front);
        assert(!segments[segments.len() - 1].contains('/'));
        let before = walked(parts, front);
        let after = walked(parts, segments);
        assert forall|i: int| 0 <= i < after.len() implies !(#[trigger] after[i]).contains('/') by {
            if i < before.len() {
                assert(after[i] == before[i]);
            }
        }
    }
}

/// A normal form written out reads back as itself: the text that is shown and looked up on disk is
/// the place that was decided about.
pub proof fn a_normal_form_reads_back(path: Seq<char>)
    ensures
        normal_form(place_text(normal_form(path))) == normal_form(path),
{
    reveal_strlit("/");
    reveal_strlit("");
    assert("/"@ =~= seq!['/']);
    let place = normal_form(path);
    let parts = place.parts;
    a_path_is_its_segments(path);
    lemma_walked_hold_no_separator(seq![], segments(path));
    normal_form_holds_only_names(path);
    let text = place_text(place);
    if parts.len() > 0 {
        joined_names_split_again(parts);
        resolving_is_idempotent(parts);
        assert(is_name(parts[0]));
        if place.absolute {
            let opening = seq![Seq::<char>::empty()];
            assert(text[0] == '/');
            walking_goes_step_by_step(seq![], opening, parts, Seq::<char>::empty());
            assert(""@ =~= Seq::<char>::empty());
            assert(walked(seq![], opening) == Seq::<Seq<char>>::empty());
            assert(walked(seq![], opening + parts) == parts);
        } else {
            assert(text == joined(parts, "/"@));
            lemma_joined_starts(parts);
            assert(parts[0].len() > 0) by {
                if parts[0].len() == 0 {
                    assert(parts[0] =~= ""@);
                }
            }
            assert(text[0] == parts[0][0]);
            assert(!parts[0].contains('/'));
            assert(parts[0].contains(parts[0][0]));
        }
    } else {
        assert(parts =~= seq![]);
        if place.absolute {
            assert(text =~= seq!['/']);
            assert(text.drop_last() =~= seq![]);
            reveal_with_fuel(segments, 2);
            let empty = Seq::<char>::empty();
            assert(segments(text) =~= seq![empty, empty]);
            assert(""@ =~= empty);
            walking_goes_step_by_step(seq![], seq![empty], seq![empty], empty);
            assert(seq![empty] + seq![empty] =~= seq![empty, empty]);
            walking_goes_step_by_step(walked(seq![], seq![empty]), seq![], seq![], empty);
        } else {
            assert(text =~= seq![]);
            let empty = Seq::<char>::empty();
            assert(""@ =~= empty);
            assert(segments(text) =~= seq![empty]);
            walking_goes_step_by_step(seq![], seq![], seq![], empty);
        }
        assert(normal_form(text).parts =~= parts);
    }
}

proof fn lemma_joined_starts(parts: Seq<Seq<char>>)
    requires
        parts.len() > 0,
    ensures
        parts[0].is_prefix_of(joined(parts, "/"@)),
    decreases parts.len(),
{
    if parts.len() > 1 {
        let front = parts.drop_last();
        lemma_joined_starts(front);
        assert(front[0] == parts[0]);
        assert(joined(parts, "/"@).take(parts[0].len() as int) =~= joined(front, "/"@).take(
            parts[0].len() as int,
        ));
    }
}

/// What lies under a root shares every name of it: a place that differs from the root in any of
/// these, or starts elsewhere, does not lie under it.
pub proof fn what_lies_under_a_root_shares_its_names(place: Place, root: Place, i: int)
    requires
        0 <= i < root.parts.len(),
    ensures
        lies_under(place, root) ==> place.absolute == root.absolute && i < place.parts.len()
            && place.parts[i] == root.parts[i],
        lies_under(root, root),
        place.absolute == root.absolute && place.parts == root.parts.drop_last() ==> !lies_under(
            place,
            root,
        ),
{
    if lies_under(place, root) {
        assert(place.parts.take(root.parts.len() as int)[i] == place.parts[i]);
    }
    assert(root.parts.take(root.parts.len() as int) =~= root.parts);
}

/// Every path that a call names in one of the guarded fields is checked, and nothing else is.
pub proof fn every_named_path_is_checked(
    arguments: Json,
    fields: Seq<Seq<char>>,
    path: Seq<char>,
)
    ensures
        named_paths(arguments, fields).contains(path) == exists|i: int|
            0 <= i < fields.len() && string_field(arguments, #[trigger] fields[i]) == Some(path),
    decreases fields.len(),
{
    if fields.len() > 0 {
        let front = fields.drop_last();
        let n = fields.len() - 1;
        every_named_path_is_checked(arguments, front, path);
        let before = named_paths(arguments, front);
        let after = named_paths(arguments, fields);
        if before.contains(path) {
            let k = choose|k: int| 0 <= k < before.len() && before[k] == path;
            assert(after[k] == path);
            let i = choose|i: int|
                0 <= i < front.len() && string_field(arguments, #[trigger] front[i]) == Some(path);
            assert(string_field(arguments, fields[i]) == Some(path));
        }
        if string_field(arguments, fields[n]) == Some(path) {
            assert(after[before.len() as int] == path);
        }
        if after.contains(path) {
            let k = choose|k: int| 0 <= k < after.len() && after[k] == path;
            if k < before.len() {
                assert(before[k] == path);
            } else {
                assert(string_field(arguments, fields[n]) == Some(path));
            }
        }
        if exists|i: int|
            0 <= i < fields.len() && string_field(arguments, #[trigger] fields[i]) == Some(path) {
            let i = choose|i: int|
                0 <= i < fields.len() && string_field(arguments, #[trigger] fields[i]) == Some(
                    path,
                );
            if i < n {
                assert(string_field(arguments, front[i]) == Some(path));
            }
        }
    }
}

/// A path is resolved by name alone to the place its segments lead to, and no `..` is left in it.
pub proof fn a_path_is_resolved_to_names(path: &str, place: LexicalPath, i: int)
    requires
        call_ensures(lexical_normalize, (path,), place),
    ensures
        place@.absolute == (path@.len() > 0 && path@[0] == '/'),
        place@.parts == walked(seq![], segments(path@)),
        0 <= i < place@.parts.len() ==> place@.parts[i] != ".."@ && place@.parts[i] != "."@
            && place@.parts[i] != ""@,
{
    normal_form_holds_only_names(path@);
    if 0 <= i < place@.parts.len() {
        assert(is_name(normal_form(path@).parts[i]));
    }
}

/// Resolving a path replaces what was found on disk and keeps every name behind it, in order: what
/// is decided about ends in the names that were asked for.
pub proof fn resolving_keeps_the_names_behind(place: Place, kept: int, canonical: Place, i: int)
    requires
        0 <= kept <= place.parts.len(),
        kept <= i < place.parts.len(),
    ensures
        ({
            let resolved = reattached(place, kept, canonical);
            &&& resolved.absolute == canonical.absolute
            &&& resolved.parts.len() == canonical.parts.len() + (place.parts.len() - kept)
            &&& canonical.parts.is_prefix_of(resolved.parts)
            &&& resolved.parts[canonical.parts.len() + (i - kept)] == place.parts[i]
            &&& lies_under(resolved, canonical)
        }),
        prefix_of(place, kept).absolute == place.absolute,
        prefix_of(place, kept).parts.len() == kept,
        lies_under(place, prefix_of(place, kept)),
{
    let resolved = reattached(place, kept, canonical);
    assert(resolved.parts.take(canonical.parts.len() as int) =~= canonical.parts);
}

/// A path is taken from its base unless it starts at the root: a name leads one down from there,
/// and `..` one up.
pub proof fn a_relative_path_starts_at_its_base(base: Place, path: Seq<char>)
    ensures
        path.len() > 0 && path[0] == '/' ==> normal_form_from(base, path) == normal_form(path),
        path.len() == 0 || path[0] != '/' ==> normal_form_from(base, path).absolute
            == base.absolute,
        !path.contains('/') && is_name(path) ==> normal_form_from(base, path).parts
            == base.parts.push(path),
        path == ".."@ && base.parts.len() > 0 ==> normal_form_from(base, path).parts
            == base.parts.drop_last(),
        path == "."@ ==> normal_form_from(base, path).parts == base.parts,
{
    reveal_strlit("");
    reveal_strlit(".");
    reveal_strlit("..");
    if !path.contains('/') {
        if path.len() > 0 && path[0] == '/' {
            assert(path.contains(path[0]));
        }
        joined_names_split_again(seq![path]);
        assert(joined(seq![path], "/"@) == path);
        walking_goes_step_by_step(base.parts, seq![], seq![], path);
    }
    if path == ".."@ || path == "."@ {
        assert(!path.contains('/')) by {
            if path.contains('/') {
                let k = choose|k: int| 0 <= k < path.len() && path[k] == '/';
                assert(path[k] == '.');
            }
        }
        joined_names_split_again(seq![path]);
        assert(joined(seq![path], "/"@) == path);
        walking_goes_step_by_step(base.parts, seq![], seq![], path);
    }
}

/// Every path argument of every file tool is guarded.
pub proof fn every_file_tool_is_guarded(tool: Seq<char>)
    ensures
        tool == "read_file"@ || tool == "delete_file"@ || tool == "read_image"@ ==> fields_of(
            tool,
        ).contains("file_path"@),
        tool == "list_files"@ ==> fields_of(tool).contains("path"@),
        tool == "unzip_file"@ ==> fields_of(tool).contains("zip_path"@) && fields_of(
            tool,
        ).contains("extract_to"@),
{
    reveal_strlit("read_file");
    reveal_strlit("delete_file");
    reveal_strlit("read_image");
    reveal_strlit("list_files");
    reveal_strlit("unzip_file");
    assert("list_files"@[0] == 'l' && "unzip_file"@[0] == 'u' && "read_image"@[0] == 'r');
    assert("read_file"@.len() == 9 && "delete_file"@.len() == 11 && "list_files"@.len() == 10);
    if tool == "read_file"@ || tool == "delete_file"@ || tool == "read_image"@ {
        assert(fields_of(tool)[0] == "file_path"@);
    }
    if tool == "list_files"@ {
        assert(fields_of(tool)[0] == "path"@);
    }
    if tool == "unzip_file"@ {
        assert(fields_of(tool)[0] == "zip_path"@ && fields_of(tool)[1] == "extract_to"@);
    }
}

} // verus!

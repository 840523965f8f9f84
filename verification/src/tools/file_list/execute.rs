//! How a directory is shown. Reading it is the caller's part.

use vstd::prelude::*;

use crate::text::{
    lemma_precedes_irreflexive, lemma_precedes_total, lemma_precedes_transitive, occurs_at, occurs_in,
    precedes, stands_before, views,
};
use crate::tools::file_list::ListFilesArgs;

verus! {

/// What is said of arguments that could not be decoded.
pub const INVALID_ARGUMENTS: &'static str = "invalid file read arguments";

/// What stands at a path.
#[derive(Debug, Clone, Copy, PartialEq, Eq, Structural)]
pub enum Found {
    Nothing,
    File,
    Directory,
}

/// One thing a directory holds.
#[derive(Debug, PartialEq, Eq)]
pub struct Entry {
    pub name: String,
    pub is_dir: bool,
}

/// Only a directory can be listed: what is said where something else, or nothing, stands at
/// the path.
pub fn check(args: &ListFilesArgs, found: Found) -> (checked: Result<(), String>)
    ensures
        match checked {
            Ok(_) => found == Found::Directory,
            Err(text) => {
                ||| found == Found::Nothing && text@ == "Path not found: "@ + args.path@
                ||| found == Found::File && text@ == "Not a directory: "@ + args.path@
            },
        },
{
    match found {
        Found::Directory => Ok(()),
        Found::Nothing => {
            let mut text = "Path not found: ".to_owned();
            text.append(args.path.as_str());
            Err(text)
        },
        Found::File => {
            let mut text = "Not a directory: ".to_owned();
            text.append(args.path.as_str());
            Err(text)
        },
    }
}

/// Whether a name is hidden.
pub open spec fn hidden(name: Seq<char>) -> bool {
    name.len() > 0 && name[0] == '.'
}

/// The names of the directories among some entries, hidden ones aside.
pub open spec fn directories(entries: Seq<Entry>) -> Seq<Seq<char>>
    decreases entries.len(),
{
    if entries.len() == 0 {
        seq![]
    } else {
        let rest = directories(entries.drop_last());
        let last = entries.last();
        if last.is_dir && !hidden(last.name@) {
            rest.push(last.name@)
        } else {
            rest
        }
    }
}

/// The names of what is not a directory, hidden entries aside.
pub open spec fn files(entries: Seq<Entry>) -> Seq<Seq<char>>
    decreases entries.len(),
{
    if entries.len() == 0 {
        seq![]
    } else {
        let rest = files(entries.drop_last());
        let last = entries.last();
        if !last.is_dir && !hidden(last.name@) {
            rest.push(last.name@)
        } else {
            rest
        }
    }
}

/// Whether texts stand in the order of their characters.
pub open spec fn in_order(texts: Seq<Seq<char>>) -> bool {
    forall|i: int, j: int|
        0 <= i < j < texts.len() ==> !precedes(#[trigger] texts[j], #[trigger] texts[i])
}

/// Whether `sorted` holds what `given` does, in order.
pub open spec fn sorting_of(sorted: Seq<Seq<char>>, given: Seq<Seq<char>>) -> bool {
    in_order(sorted) && sorted.to_multiset() == given.to_multiset()
}

/// One line for each of some names, with `mark` behind each.
pub open spec fn lines(items: Seq<Seq<char>>, mark: Seq<char>) -> Seq<char>
    decreases items.len(),
{
    if items.len() == 0 {
        seq![]
    } else {
        lines(items.drop_last(), mark) + (". "@ + items.last() + mark + "\n"@)
    }
}

/// Whether `text` shows a directory: its path, then one line for each entry that is not
/// hidden, directories first and with a `/` behind, each group in the order of its names.
pub open spec fn shows(text: Seq<char>, path: Seq<char>, entries: Seq<Entry>) -> bool {
    exists|dirs: Seq<Seq<char>>, others: Seq<Seq<char>>|
        #[trigger] sorting_of(dirs, directories(entries)) && #[trigger] sorting_of(
            others,
            files(entries),
        ) && text == "Directory: "@ + path + "\n"@ + lines(dirs, "/"@) + lines(
            others,
            ""@,
        )
}

fn is_hidden(name: &str) -> (is: bool)
    ensures
        is == hidden(name@),
{
    !name.is_empty() && name.get_char(0) == '.'
}

fn enter(sorted: &mut Vec<String>, text: String)
    requires
        in_order(views(old(sorted)@)),
    ensures
        in_order(views(final(sorted)@)),
        views(final(sorted)@).to_multiset() == views(old(sorted)@).to_multiset().insert(text@),
{
    let ghost before = views(sorted@);
    let mut at: usize = sorted.len();
    while at > 0 && stands_before(text.as_str(), sorted[at - 1].as_str())
        invariant
            at <= sorted@.len(),
            before == views(sorted@),
            forall|i: int| at <= i < before.len() ==> precedes(text@, #[trigger] before[i]),
        decreases at,
    {
        at -= 1;
    }
    proof {
        let after = before.insert(at as int, text@);
        vstd::seq_lib::to_multiset_insert(before, at as int, text@);
        assert forall|i: int, j: int| 0 <= i < j < after.len() implies !precedes(
            #[trigger] after[j],
            #[trigger] after[i],
        ) by {
            let a = if i < at {
                before[i]
            } else {
                before[i - 1]
            };
            let b = if j < at {
                before[j]
            } else {
                before[j - 1]
            };
            if i == at {
                assert(b == before[j - 1]);
                assert(precedes(text@, b));
                if precedes(b, text@) {
                    lemma_precedes_transitive(b, text@, b);
                    lemma_precedes_irreflexive(b);
                }
            } else if j == at {
                assert(a == before[i]);
                if i < at - 1 && precedes(text@, a) {
                    let c = before[at - 1];
                    assert(!precedes(c, a));
                    lemma_precedes_total(a, c);
                    if a == c {
                        assert(precedes(text@, c));
                    } else {
                        lemma_precedes_transitive(text@, a, c);
                    }
                }
            } else {
                assert(after[i] == a);
                assert(after[j] == b);
            }
        }
    }
    let ghost said = text@;
    sorted.insert(at, text);
    assert(views(sorted@) =~= before.insert(at as int, said));
}

fn push_lines(text: &mut String, items: &Vec<String>, mark: &str)
    ensures
        final(text)@ == old(text)@ + lines(views(items@), mark@),
{
    let ghost before = text@;
    let mut i: usize = 0;
    assert(before + lines(views(items@).take(0), mark@) =~= before);
    while i < items.len()
        invariant
            i <= items@.len(),
            text@ == before + lines(views(items@).take(i as int), mark@),
        decreases items@.len() - i,
    {
        let ghost shown = lines(views(items@).take(i as int), mark@);
        proof {
            let next = views(items@).take(i + 1);
            assert(next.drop_last() =~= views(items@).take(i as int));
            assert(next.last() == items@[i as int]@);
        }
        text.append(". ");
        text.append(items[i].as_str());
        text.append(mark);
        text.append("\n");
        assert(text@ =~= before + (shown + (". "@ + items@[i as int]@ + mark@ + "\n"@)));
        i += 1;
    }
    assert(views(items@).take(i as int) =~= views(items@));
}

/// Show a directory: directories first, then files, each group in the order of its names. Hidden entries are
/// left out, being noise to the model.
pub fn run(args: &ListFilesArgs, entries: &Vec<Entry>) -> (text: String)
    ensures
        shows(text@, args.path@, entries@),
{
    let mut dirs: Vec<String> = Vec::new();
    let mut others: Vec<String> = Vec::new();
    let mut i: usize = 0;
    proof {
        let none: Seq<Seq<char>> = seq![];
        assert(views(dirs@) =~= none);
        assert(views(others@) =~= none);
    }
    while i < entries.len()
        invariant
            i <= entries@.len(),
            sorting_of(views(dirs@), directories(entries@.take(i as int))),
            sorting_of(views(others@), files(entries@.take(i as int))),
        decreases entries@.len() - i,
    {
        let entry = &entries[i];
        proof {
            let next = entries@.take(i + 1);
            assert(next.drop_last() =~= entries@.take(i as int));
            lemma_push_multiset(directories(entries@.take(i as int)), entry.name@);
            lemma_push_multiset(files(entries@.take(i as int)), entry.name@);
        }
        if !is_hidden(entry.name.as_str()) {
            if entry.is_dir {
                enter(&mut dirs, entry.name.clone());
            } else {
                enter(&mut others, entry.name.clone());
            }
        }
        i += 1;
    }
    assert(entries@.take(i as int) =~= entries@);
    let mut text = "Directory: ".to_owned();
    text.append(args.path.as_str());
    text.append("\n");
    push_lines(&mut text, &dirs, "/");
    push_lines(&mut text, &others, "");
    assert(shows(text@, args.path@, entries@)) by {
        assert(sorting_of(views(dirs@), directories(entries@)));
        assert(sorting_of(views(others@), files(entries@)));
    }
    text
}

/// Whether `a` may stand before `b` in order.
spec fn not_after(a: Seq<char>, b: Seq<char>) -> bool {
    !precedes(b, a)
}

proof fn lemma_one_sorting(left: Seq<Seq<char>>, right: Seq<Seq<char>>, given: Seq<Seq<char>>)
    requires
        sorting_of(left, given),
        sorting_of(right, given),
    ensures
        left == right,
{
    let leq = |a: Seq<char>, b: Seq<char>| not_after(a, b);
    assert forall|a: Seq<char>| #[trigger] leq(a, a) by {
        lemma_precedes_irreflexive(a);
    }
    assert forall|a: Seq<char>, b: Seq<char>| #[trigger]
        leq(a, b) && #[trigger] leq(b, a) implies a == b by {
        lemma_precedes_total(a, b);
    }
    assert forall|a: Seq<char>, b: Seq<char>| #[trigger] leq(a, b) || #[trigger] leq(b, a) by {
        if precedes(a, b) && precedes(b, a) {
            lemma_precedes_transitive(a, b, a);
            lemma_precedes_irreflexive(a);
        }
    }
    assert forall|a: Seq<char>, b: Seq<char>, c: Seq<char>| #[trigger]
        leq(a, b) && #[trigger] leq(b, c) implies leq(a, c) by {
        lemma_precedes_total(a, b);
        lemma_precedes_total(b, c);
        if precedes(c, a) {
            if a != b {
                lemma_precedes_transitive(c, a, b);
            }
        }
    }
    assert(vstd::relations::sorted_by(left, leq));
    assert(vstd::relations::sorted_by(right, leq));
    vstd::seq_lib::lemma_sorted_unique(left, right, leq);
}

/// What an entry adds to the directories shown.
spec fn as_directory(entry: Entry) -> Seq<Seq<char>> {
    if entry.is_dir && !hidden(entry.name@) {
        seq![entry.name@]
    } else {
        seq![]
    }
}

/// What an entry adds to the files shown.
spec fn as_file(entry: Entry) -> Seq<Seq<char>> {
    if !entry.is_dir && !hidden(entry.name@) {
        seq![entry.name@]
    } else {
        seq![]
    }
}

proof fn lemma_taken_out(entries: Seq<Entry>, at: int)
    requires
        0 <= at < entries.len(),
    ensures
        directories(entries).to_multiset() == directories(entries.remove(at)).to_multiset().add(
            as_directory(entries[at]).to_multiset(),
        ),
        files(entries).to_multiset() == files(entries.remove(at)).to_multiset().add(
            as_file(entries[at]).to_multiset(),
        ),
    decreases entries.len(),
{
    broadcast use vstd::seq_lib::group_to_multiset_ensures;

    let front = entries.drop_last();
    let last = entries.last();
    assert(directories(entries) =~= directories(front) + as_directory(last));
    assert(files(entries) =~= files(front) + as_file(last));
    vstd::seq_lib::lemma_multiset_commutative(directories(front), as_directory(last));
    vstd::seq_lib::lemma_multiset_commutative(files(front), as_file(last));
    if at == entries.len() - 1 {
        assert(entries.remove(at) =~= front);
    } else {
        let rest = entries.remove(at);
        lemma_taken_out(front, at);
        assert(rest.drop_last() =~= front.remove(at));
        assert(rest.last() == last);
        assert(directories(rest) =~= directories(front.remove(at)) + as_directory(last));
        assert(files(rest) =~= files(front.remove(at)) + as_file(last));
        vstd::seq_lib::lemma_multiset_commutative(
            directories(front.remove(at)),
            as_directory(last),
        );
        vstd::seq_lib::lemma_multiset_commutative(files(front.remove(at)), as_file(last));
        assert(directories(entries).to_multiset() =~= directories(rest).to_multiset().add(
            as_directory(entries[at]).to_multiset(),
        ));
        assert(files(entries).to_multiset() =~= files(rest).to_multiset().add(
            as_file(entries[at]).to_multiset(),
        ));
    }
}

proof fn lemma_same_groups(left: Seq<Entry>, right: Seq<Entry>)
    requires
        left.to_multiset() == right.to_multiset(),
    ensures
        directories(left).to_multiset() == directories(right).to_multiset(),
        files(left).to_multiset() == files(right).to_multiset(),
    decreases left.len(),
{
    broadcast use vstd::seq_lib::group_to_multiset_ensures;

    assert(left.len() == left.to_multiset().len());
    assert(right.len() == right.to_multiset().len());
    if left.len() > 0 {
        let entry = left.last();
        let end = left.len() - 1;
        assert(left.contains(left[end]));
        assert(left.to_multiset().contains(entry));
        assert(right.contains(entry));
        let at = choose|at: int| 0 <= at < right.len() && right[at] == entry;
        lemma_taken_out(left, end);
        lemma_taken_out(right, at);
        assert(left.remove(end).to_multiset() =~= right.remove(at).to_multiset());
        lemma_same_groups(left.remove(end), right.remove(at));
    } else {
        assert(left =~= right);
    }
}

/// There is one way to show a directory, in whatever order it was read.
pub proof fn a_listing_is_determined(
    left: Seq<char>,
    right: Seq<char>,
    path: Seq<char>,
    entries: Seq<Entry>,
    reordered: Seq<Entry>,
)
    requires
        shows(left, path, entries),
        shows(right, path, reordered),
        entries.to_multiset() == reordered.to_multiset(),
    ensures
        left == right,
{
    lemma_same_groups(entries, reordered);
    let (a, b) = choose|a: Seq<Seq<char>>, b: Seq<Seq<char>>| #[trigger]
        sorting_of(a, directories(entries)) && #[trigger] sorting_of(b, files(entries)) && left
            == "Directory: "@ + path + "\n"@ + lines(a, "/"@) + lines(b, ""@);
    let (c, d) = choose|c: Seq<Seq<char>>, d: Seq<Seq<char>>| #[trigger]
        sorting_of(c, directories(reordered)) && #[trigger] sorting_of(d, files(reordered))
            && right == "Directory: "@ + path + "\n"@ + lines(c, "/"@) + lines(d, ""@);
    assert(sorting_of(c, directories(entries)));
    assert(sorting_of(d, files(entries)));
    lemma_one_sorting(a, c, directories(entries));
    lemma_one_sorting(b, d, files(entries));
}

proof fn lemma_push_multiset(s: Seq<Seq<char>>, x: Seq<char>)
    ensures
        s.push(x).to_multiset() == s.to_multiset().insert(x),
{
    vstd::seq_lib::to_multiset_insert(s, s.len() as int, x);
    assert(s.insert(s.len() as int, x) =~= s.push(x));
}

/// Each name stands on a line of its own, behind a dot and before its mark, in order.
pub proof fn each_name_stands_on_its_line(
    left: Seq<Seq<char>>,
    right: Seq<Seq<char>>,
    name: Seq<char>,
    mark: Seq<char>,
)
    ensures
        lines(left + right, mark) == lines(left, mark) + lines(right, mark),
        lines(seq![name], mark) == seq!['.', ' '] + name + mark + seq!['\n'],
    decreases right.len(),
{
    reveal_strlit(". ");
    reveal_strlit("\n");
    reveal_with_fuel(lines, 2);
    assert(seq![name].drop_last() =~= seq![]);
    assert(". "@ =~= seq!['.', ' ']);
    assert("\n"@ =~= seq!['\n']);
    assert(lines(seq![name], mark) =~= seq!['.', ' '] + name + mark + seq!['\n']);
    if right.len() == 0 {
        assert(left + right =~= left);
        assert(lines(left, mark) + lines(right, mark) =~= lines(left, mark));
    } else {
        each_name_stands_on_its_line(left, right.drop_last(), name, mark);
        assert((left + right).drop_last() =~= left + right.drop_last());
        assert(lines(left + right, mark) =~= lines(left, mark) + lines(right, mark));
    }
}

/// Everything a directory holds is listed in its group, but for what starts with a dot.
pub proof fn everything_visible_is_listed(entries: Seq<Entry>, name: Seq<char>)
    ensures
        directories(entries).contains(name) == exists|i: int|
            0 <= i < entries.len() && (#[trigger] entries[i]).name@ == name && entries[i].is_dir && (
            name.len() == 0 || name[0] != '.'),
        files(entries).contains(name) == exists|i: int|
            0 <= i < entries.len() && (#[trigger] entries[i]).name@ == name && !entries[i].is_dir
                && (name.len() == 0 || name[0] != '.'),
    decreases entries.len(),
{
    if entries.len() > 0 {
        let front = entries.drop_last();
        let n = entries.len() - 1;
        everything_visible_is_listed(front, name);
        assert forall|i: int| 0 <= i < n implies front[i] == #[trigger] entries[i] by {}
        assert(entries[n] == entries.last());
        lemma_pushed(directories(front), entries.last().name@, name);
        lemma_pushed(files(front), entries.last().name@, name);
        let visible = name.len() == 0 || name[0] != '.';
        if exists|i: int|
            0 <= i < front.len() && (#[trigger] front[i]).name@ == name && front[i].is_dir
                && visible {
            let i = choose|i: int|
                0 <= i < front.len() && (#[trigger] front[i]).name@ == name && front[i].is_dir
                    && visible;
            assert(entries[i].name@ == name);
        }
        if exists|i: int|
            0 <= i < front.len() && (#[trigger] front[i]).name@ == name && !front[i].is_dir
                && visible {
            let i = choose|i: int|
                0 <= i < front.len() && (#[trigger] front[i]).name@ == name && !front[i].is_dir
                    && visible;
            assert(entries[i].name@ == name);
        }
        if exists|i: int|
            0 <= i < entries.len() && (#[trigger] entries[i]).name@ == name && entries[i].is_dir
                && visible {
            let i = choose|i: int|
                0 <= i < entries.len() && (#[trigger] entries[i]).name@ == name && entries[i].is_dir
                    && visible;
            if i < n {
                assert(front[i].name@ == name);
            }
        }
        if exists|i: int|
            0 <= i < entries.len() && (#[trigger] entries[i]).name@ == name && !entries[i].is_dir
                && visible {
            let i = choose|i: int|
                0 <= i < entries.len() && (#[trigger] entries[i]).name@ == name
                    && !entries[i].is_dir && visible;
            if i < n {
                assert(front[i].name@ == name);
            }
        }
    }
}

proof fn lemma_pushed(texts: Seq<Seq<char>>, text: Seq<char>, other: Seq<char>)
    ensures
        texts.push(text).contains(other) == (texts.contains(other) || text == other),
{
    let all = texts.push(text);
    if texts.contains(other) {
        let i = choose|i: int| 0 <= i < texts.len() && texts[i] == other;
        assert(all[i] == other);
    }
    assert(all[texts.len() as int] == text);
    if all.contains(other) {
        let i = choose|i: int| 0 <= i < all.len() && all[i] == other;
        if i < texts.len() {
            assert(texts[i] == other);
        }
    }
}

proof fn lemma_line_of(names: Seq<Seq<char>>, mark: Seq<char>, k: int)
    requires
        0 <= k < names.len(),
    ensures
        occurs_in(lines(names, mark), seq!['.', ' '] + names[k] + mark + seq!['\n']),
    decreases names.len(),
{
    let all = lines(names, mark);
    let front = names.drop_last();
    let line = seq!['.', ' '] + names[k] + mark + seq!['\n'];
    each_name_stands_on_its_line(front, seq![names.last()], names.last(), mark);
    assert(front + seq![names.last()] =~= names);
    let before = lines(front, mark);
    if k == names.len() - 1 {
        let at = before.len() as int;
        assert(all.subrange(at, at + line.len()) =~= line);
        assert(occurs_at(all, line, at));
    } else {
        lemma_line_of(front, mark, k);
        assert(front[k] == names[k]);
        let at = choose|at: int| occurs_at(before, line, at);
        assert(occurs_at(before, line, at));
        assert(all.subrange(at, at + line.len()) =~= before.subrange(at, at + line.len()));
        assert(occurs_at(all, line, at));
    }
}

/// Whatever a directory holds that is not hidden is listed, on a line of its own, a directory with
/// a `/` behind its name.
pub proof fn whatever_is_visible_is_listed(
    args: &ListFilesArgs,
    entries: &Vec<Entry>,
    text: String,
    i: int,
)
    requires
        call_ensures(run, (args, entries), text),
        0 <= i < entries@.len(),
        entries@[i].name@.len() == 0 || entries@[i].name@[0] != '.',
    ensures
        occurs_in(
            text@,
            seq!['.', ' '] + entries@[i].name@ + (if entries@[i].is_dir {
                seq!['/']
            } else {
                seq![]
            }) + seq!['\n'],
        ),
        ("Directory: "@ + args.path@ + "\n"@).is_prefix_of(text@),
{
    reveal_strlit("/");
    reveal_strlit("");
    let all = entries@;
    let name = all[i].name@;
    let (dirs, others) = choose|dirs: Seq<Seq<char>>, others: Seq<Seq<char>>| #[trigger]
        sorting_of(dirs, directories(all)) && #[trigger] sorting_of(others, files(all)) && text@
            == "Directory: "@ + args.path@ + "\n"@ + lines(dirs, "/"@) + lines(others, ""@);
    everything_visible_is_listed(all, name);
    assert(all[i].name@ == name);
    let opening = "Directory: "@ + args.path@ + "\n"@;
    let a = lines(dirs, "/"@);
    let b = lines(others, ""@);
    assert(text@ =~= opening + a + b);
    assert(text@.take(opening.len() as int) =~= opening);
    if all[i].is_dir {
        lemma_sorting_has(dirs, directories(all), name);
        let k = choose|k: int| 0 <= k < dirs.len() && dirs[k] == name;
        lemma_line_of(dirs, "/"@, k);
        let line = seq!['.', ' '] + name + seq!['/'] + seq!['\n'];
        assert(seq!['.', ' '] + dirs[k] + "/"@ + seq!['\n'] =~= line);
        let at = choose|at: int| occurs_at(a, line, at);
        assert(occurs_at(a, line, at));
        let start = opening.len() + at;
        assert(text@.subrange(start, start + line.len()) =~= a.subrange(at, at + line.len()));
        assert(occurs_at(text@, line, start));
    } else {
        lemma_sorting_has(others, files(all), name);
        let k = choose|k: int| 0 <= k < others.len() && others[k] == name;
        lemma_line_of(others, ""@, k);
        let line = seq!['.', ' '] + name + seq![] + seq!['\n'];
        assert(seq!['.', ' '] + others[k] + ""@ + seq!['\n'] =~= line);
        let at = choose|at: int| occurs_at(b, line, at);
        assert(occurs_at(b, line, at));
        let start = opening.len() + a.len() + at;
        assert(text@.subrange(start, start + line.len()) =~= b.subrange(at, at + line.len()));
        assert(occurs_at(text@, line, start));
    }
}

proof fn lemma_sorting_has(sorted: Seq<Seq<char>>, given: Seq<Seq<char>>, name: Seq<char>)
    requires
        sorting_of(sorted, given),
        given.contains(name),
    ensures
        sorted.contains(name),
{
    broadcast use vstd::seq_lib::group_to_multiset_ensures;

    assert(given.to_multiset().contains(name));
    assert(sorted.to_multiset().contains(name));
}

} // verus!

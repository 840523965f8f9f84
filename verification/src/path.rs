//! Paths as sequences of names with a `/` between them. A caller on a system that writes paths
//! otherwise translates them.

use vstd::prelude::*;

use crate::text::{chars_of, cut, joined, same_text, views};

verus! {

/// The texts between the separators of a path, empty ones included.
pub open spec fn segments(path: Seq<char>) -> Seq<Seq<char>>
    decreases path.len(),
{
    if path.len() == 0 {
        seq![seq![]]
    } else {
        let before = segments(path.drop_last());
        if path.last() == '/' {
            before.push(seq![])
        } else {
            before.drop_last().push(before.last().push(path.last()))
        }
    }
}

/// Whether a path starts at the root.
pub open spec fn is_absolute(path: Seq<char>) -> bool {
    path.len() > 0 && path[0] == '/'
}

/// The last name of a path: its last segment, empty ones and `.` aside. A path that ends in
/// `..`, or that has no such segment, has none.
pub open spec fn last_name(segments: Seq<Seq<char>>) -> Option<Seq<char>>
    decreases segments.len(),
{
    if segments.len() == 0 {
        None
    } else if segments.last() == ""@ || segments.last() == "."@ {
        last_name(segments.drop_last())
    } else if segments.last() == ".."@ {
        None
    } else {
        Some(segments.last())
    }
}

/// What follows the last dot of a name, unless the name starts with it and holds no other.
pub open spec fn extension_of(name: Seq<char>) -> Option<Seq<char>> {
    let dot = last_dot(name);
    if dot <= 0 {
        None
    } else {
        Some(name.skip(dot + 1))
    }
}

/// Where the last dot of a name stands; before its start where there is none.
pub open spec fn last_dot(name: Seq<char>) -> int
    decreases name.len(),
{
    if name.len() == 0 {
        -1
    } else if name.last() == '.' {
        name.len() - 1
    } else {
        last_dot(name.drop_last())
    }
}

/// The extension of the file that a path names.
pub open spec fn path_extension(path: Seq<char>) -> Option<Seq<char>> {
    match last_name(segments(path)) {
        Some(name) => extension_of(name),
        None => None,
    }
}

/// A path without the separators and `.` segments behind its last name.
pub open spec fn named_part(path: Seq<char>) -> Seq<char>
    decreases path.len(),
{
    if path.len() == 0 {
        path
    } else if path.last() == '/' {
        named_part(path.drop_last())
    } else if path.len() > 1 && path.last() == '.' && path[path.len() - 2] == '/' {
        named_part(path.drop_last())
    } else {
        path
    }
}

/// A path without the extension of the file it names, its dot and what stands behind it. A path
/// that names no file is left as it is.
pub open spec fn without_extension(path: Seq<char>) -> Seq<char> {
    match last_name(segments(path)) {
        None => path,
        Some(name) => match extension_of(name) {
            None => named_part(path),
            Some(extension) => cut(
                named_part(path),
                if named_part(path).len() > extension.len() {
                    (named_part(path).len() - extension.len() - 1) as nat
                } else {
                    0
                },
            ),
        },
    }
}

/// The texts between the separators of a path, empty ones included.
pub fn split_path(path: &str) -> (parts: Vec<String>)
    ensures
        views(parts@) == segments(path@),
{
    let chars = chars_of(path);
    let mut parts: Vec<String> = Vec::new();
    let mut current = String::new();
    let mut i: usize = 0;
    assert(views(parts@).push(current@) =~= segments(chars@.take(0)));
    while i < chars.len()
        invariant
            i <= chars@.len(),
            views(parts@).push(current@) == segments(chars@.take(i as int)),
        decreases chars@.len() - i,
    {
        let ghost before = segments(chars@.take(i as int));
        proof {
            let next = chars@.take(i + 1);
            assert(next.drop_last() =~= chars@.take(i as int));
            assert(next.last() == chars@[i as int]);
            assert(before.drop_last() =~= views(parts@));
            assert(before.last() == current@);
        }
        if chars[i] == '/' {
            let ghost old_parts = parts@;
            let ghost old_current = current@;
            parts.push(current);
            current = String::new();
            assert(views(parts@) =~= views(old_parts).push(old_current));
        } else {
            current.push(chars[i]);
        }
        assert(views(parts@).push(current@) =~= segments(chars@.take(i + 1)));
        i += 1;
    }
    assert(chars@.take(i as int) =~= chars@);
    let ghost old_parts = parts@;
    parts.push(current);
    assert(views(parts@) =~= views(old_parts).push(current@));
    parts
}

/// Whether a path starts at the root.
pub fn starts_at_root(path: &str) -> (is: bool)
    ensures
        is == is_absolute(path@),
{
    !path.is_empty() && path.get_char(0) == '/'
}

/// The last name of a path.
pub fn file_name(path: &str) -> (name: Option<String>)
    ensures
        match name {
            Some(n) => last_name(segments(path@)) == Some(n@),
            None => last_name(segments(path@)) is None,
        },
{
    let mut parts = split_path(path);
    while parts.len() > 0
        invariant
            last_name(segments(path@)) == last_name(views(parts@)),
        decreases parts@.len(),
    {
        let ghost before = parts@;
        match parts.pop() {
            Some(part) => {
                assert(views(before).drop_last() =~= views(parts@));
                assert(views(before).last() == part@);
                let text = part.as_str();
                if same_text(text, "..") {
                    proof {
                        reveal_strlit("");
                        reveal_strlit(".");
                        reveal_strlit("..");
                        assert(""@.len() != ".."@.len());
                        assert("."@.len() != ".."@.len());
                    }
                    return None;
                }
                if !same_text(text, "") && !same_text(text, ".") {
                    return Some(part);
                }
            },
            None => {},
        }
    }
    None
}

/// What follows the last dot of a name, unless the name starts with it and holds no other.
fn extension_text(name: &str) -> (extension: Option<String>)
    ensures
        match extension {
            Some(e) => extension_of(name@) == Some(e@),
            None => extension_of(name@) is None,
        },
{
    let chars = chars_of(name);
    let mut i: usize = chars.len();
    assert(chars@.take(i as int) =~= chars@);
    while i > 0
        invariant
            i <= chars@.len(),
            chars@ == name@,
            last_dot(chars@) == last_dot(chars@.take(i as int)),
        decreases i,
    {
        assert(chars@.take(i as int).drop_last() =~= chars@.take(i - 1));
        if chars[i - 1] == '.' {
            assert(last_dot(chars@) == i - 1);
            if i == 1 {
                return None;
            }
            let rest = name.substring_char(i, chars.len());
            assert(rest@ =~= name@.skip(i as int));
            return Some(rest.to_owned());
        }
        i -= 1;
    }
    None
}

/// The extension of the file that a path names.
pub fn extension(path: &str) -> (found: Option<String>)
    ensures
        match found {
            Some(e) => path_extension(path@) == Some(e@),
            None => path_extension(path@) is None,
        },
{
    match file_name(path) {
        Some(name) => extension_text(name.as_str()),
        None => None,
    }
}

/// A path without the extension of the file it names.
pub fn strip_extension(path: &str) -> (stripped: String)
    ensures
        stripped@ == without_extension(path@),
{
    let name = match file_name(path) {
        Some(name) => name,
        None => {
            return path.to_owned();
        },
    };
    let chars = chars_of(path);
    let mut end: usize = chars.len();
    assert(chars@.take(end as int) =~= chars@);
    while end > 0 && (chars[end - 1] == '/' || (end > 1 && chars[end - 1] == '.' && chars[end - 2]
        == '/'))
        invariant
            end <= chars@.len(),
            chars@ == path@,
            named_part(chars@) == named_part(chars@.take(end as int)),
        decreases end,
    {
        assert(chars@.take(end as int).drop_last() =~= chars@.take(end - 1));
        end -= 1;
    }
    assert(named_part(path@) == path@.take(end as int));
    let kept: usize = match extension_text(name.as_str()) {
        None => end,
        Some(extension) => {
            let width: usize = extension.as_str().unicode_len();
            if end > width {
                end - width - 1
            } else {
                0
            }
        },
    };
    let stripped = path.substring_char(0, kept);
    assert(stripped@ =~= path@.take(end as int).take(kept as int));
    assert(path@.take(end as int).take(end as int) =~= path@.take(end as int));
    stripped.to_owned()
}

proof fn lemma_segments_end(before: Seq<char>, name: Seq<char>)
    requires
        !name.contains('/'),
    ensures
        segments(before.push('/') + name) == segments(before).push(name),
    decreases name.len(),
{
    let path = before.push('/') + name;
    if name.len() == 0 {
        assert(path =~= before.push('/'));
        assert(path.drop_last() =~= before);
        assert(name =~= seq![]);
    } else {
        let front = name.drop_last();
        assert(path.drop_last() =~= before.push('/') + front);
        assert(path.last() == name.last());
        assert(name.contains(name.last())) by {
            assert(name[name.len() - 1] == name.last());
        }
        assert(!front.contains('/')) by {
            if front.contains('/') {
                let k = choose|k: int| 0 <= k < front.len() && front[k] == '/';
                assert(name[k] == '/');
            }
        }
        lemma_segments_end(before, front);
        assert(segments(path) =~= segments(before).push(front.push(name.last())));
        assert(front.push(name.last()) =~= name);
    }
}

proof fn lemma_one_segment(name: Seq<char>)
    requires
        !name.contains('/'),
    ensures
        segments(name) == seq![name],
    decreases name.len(),
{
    if name.len() > 0 {
        let front = name.drop_last();
        assert(!front.contains('/')) by {
            if front.contains('/') {
                let k = choose|k: int| 0 <= k < front.len() && front[k] == '/';
                assert(name[k] == '/');
            }
        }
        assert(name[name.len() - 1] == name.last());
        lemma_one_segment(front);
        assert(segments(name) =~= seq![front.push(name.last())]);
        assert(front.push(name.last()) =~= name);
    } else {
        assert(name =~= seq![]);
    }
}

/// A path is its segments with a separator between each two, and no segment holds one.
pub proof fn a_path_is_its_segments(path: Seq<char>)
    ensures
        segments(path).len() > 0,
        joined(segments(path), "/"@) == path,
        forall|i: int| 0 <= i < segments(path).len() ==> !(#[trigger] segments(path)[i]).contains('/'),
    decreases path.len(),
{
    reveal_strlit("/");
    let all = segments(path);
    if path.len() == 0 {
        assert(joined(all, "/"@) =~= path);
    } else {
        let front = path.drop_last();
        let before = segments(front);
        a_path_is_its_segments(front);
        if path.last() == '/' {
            assert(all.drop_last() =~= before);
            assert(joined(all, "/"@) =~= path);
        } else {
            assert(all.drop_last() =~= before.drop_last());
            assert forall|i: int| 0 <= i < all.len() implies !(#[trigger] all[i]).contains('/') by {
                if i < all.len() - 1 {
                    assert(all[i] == before[i]);
                } else if all[i].contains('/') {
                    let k = choose|k: int| 0 <= k < all[i].len() && all[i][k] == '/';
                    if k < before.last().len() {
                        assert(before.last()[k] == '/');
                        assert(before[before.len() - 1].contains('/'));
                    }
                }
            }
            assert(path =~= front.push(path.last()));
            assert(all.last() == before.last().push(path.last()));
            if all.len() == 1 {
                assert(joined(before, "/"@) == before[0]);
                assert(joined(all, "/"@) == all[0]);
                assert(joined(all, "/"@) =~= path);
            } else {
                assert(joined(before, "/"@) == joined(before.drop_last(), "/"@) + "/"@
                    + before.last());
                assert(joined(all, "/"@) == joined(all.drop_last(), "/"@) + "/"@ + all.last());
                assert(joined(all, "/"@) =~= path);
            }
        }
    }
}

/// Names with a separator between each two are the segments of what they make up.
pub proof fn joined_names_split_again(parts: Seq<Seq<char>>)
    requires
        parts.len() > 0,
        forall|i: int| 0 <= i < parts.len() ==> !(#[trigger] parts[i]).contains('/'),
    ensures
        segments(joined(parts, "/"@)) == parts,
        segments("/"@ + joined(parts, "/"@)) == seq![Seq::<char>::empty()] + parts,
    decreases parts.len(),
{
    reveal_strlit("/");
    assert("/"@ =~= seq!['/']);
    if parts.len() == 1 {
        lemma_one_segment(parts[0]);
        assert(joined(parts, "/"@) == parts[0]);
        assert(segments(parts[0]) =~= parts);
        lemma_segments_end(seq![], parts[0]);
        assert(seq!['/'] =~= Seq::<char>::empty().push('/'));
        assert(segments("/"@ + joined(parts, "/"@)) =~= seq![Seq::<char>::empty()] + parts);
    } else {
        let front = parts.drop_last();
        let last = parts.last();
        assert(!parts[parts.len() - 1].contains('/'));
        assert forall|i: int| 0 <= i < front.len() implies !(#[trigger] front[i]).contains('/') by {
            assert(front[i] == parts[i]);
        }
        joined_names_split_again(front);
        let text = joined(front, "/"@);
        assert(joined(parts, "/"@) =~= text.push('/') + last);
        lemma_segments_end(text, last);
        assert(segments(joined(parts, "/"@)) =~= parts);
        assert("/"@ + joined(parts, "/"@) =~= ("/"@ + text).push('/') + last);
        lemma_segments_end("/"@ + text, last);
        assert(segments("/"@ + joined(parts, "/"@)) =~= seq![Seq::<char>::empty()] + parts);
    }
}

/// The last name of a path is one of its segments, and nothing but separators and `.` follows it.
pub proof fn the_last_name_is_the_last_segment_that_names(segments: Seq<Seq<char>>)
    ensures
        match last_name(segments) {
            Some(name) => name != ""@ && name != "."@ && name != ".."@ && exists|at: int|
                0 <= at < segments.len() && #[trigger] segments[at] == name && forall|k: int|
                    at < k < segments.len() ==> #[trigger] segments[k] == ""@ || segments[k]
                        == "."@,
            None => (forall|k: int|
                0 <= k < segments.len() ==> #[trigger] segments[k] == ""@ || segments[k] == "."@)
                || exists|at: int|
                0 <= at < segments.len() && #[trigger] segments[at] == ".."@ && forall|k: int|
                    at < k < segments.len() ==> #[trigger] segments[k] == ""@ || segments[k]
                        == "."@,
        },
    decreases segments.len(),
{
    reveal_strlit("");
    reveal_strlit(".");
    reveal_strlit("..");
    assert(""@.len() != ".."@.len());
    assert("."@.len() != ".."@.len());
    if segments.len() > 0 {
        let n = segments.len() - 1;
        assert(segments[n] == segments.last());
        if segments.last() == ""@ || segments.last() == "."@ {
            let front = segments.drop_last();
            the_last_name_is_the_last_segment_that_names(front);
            assert forall|k: int| 0 <= k < n implies front[k] == #[trigger] segments[k] by {}
            match last_name(front) {
                Some(name) => {
                    let at = choose|at: int|
                        0 <= at < front.len() && #[trigger] front[at] == name && forall|k: int|
                            at < k < front.len() ==> #[trigger] front[k] == ""@ || front[k] == "."@;
                    assert(segments[at] == name);
                    assert forall|k: int| at < k < segments.len() implies #[trigger] segments[k]
                        == ""@ || segments[k] == "."@ by {
                        if k < n {
                            assert(front[k] == segments[k]);
                        }
                    }
                },
                None => {
                    if exists|at: int|
                        0 <= at < front.len() && #[trigger] front[at] == ".."@ && forall|k: int|
                            at < k < front.len() ==> #[trigger] front[k] == ""@ || front[k]
                                == "."@ {
                        let at = choose|at: int|
                            0 <= at < front.len() && #[trigger] front[at] == ".."@ && forall|k: int|
                                at < k < front.len() ==> #[trigger] front[k] == ""@ || front[k]
                                    == "."@;
                        assert(segments[at] == ".."@);
                        assert forall|k: int| at < k < segments.len() implies #[trigger] segments[k]
                            == ""@ || segments[k] == "."@ by {
                            if k < n {
                                assert(front[k] == segments[k]);
                            }
                        }
                    } else {
                        assert forall|k: int| 0 <= k < segments.len() implies #[trigger] segments[k]
                            == ""@ || segments[k] == "."@ by {
                            if k < n {
                                assert(front[k] == segments[k]);
                            }
                        }
                    }
                },
            }
        }
    }
}

proof fn lemma_last_dot(stem: Seq<char>, extension: Seq<char>)
    requires
        !extension.contains('.'),
    ensures
        last_dot(stem.push('.') + extension) == stem.len(),
    decreases extension.len(),
{
    let name = stem.push('.') + extension;
    if extension.len() == 0 {
        assert(name =~= stem.push('.'));
    } else {
        let front = extension.drop_last();
        assert(extension[extension.len() - 1] == extension.last());
        assert(name.drop_last() =~= stem.push('.') + front);
        assert(!front.contains('.')) by {
            if front.contains('.') {
                let k = choose|k: int| 0 <= k < front.len() && front[k] == '.';
                assert(extension[k] == '.');
            }
        }
        lemma_last_dot(stem, front);
    }
}

/// An extension is what stands behind the last dot of a file's name, and taking it away leaves the
/// path up to that dot: in whatever directory the file lies, and whatever dots stand before.
pub proof fn an_extension_stands_behind_the_last_dot(
    directory: Seq<char>,
    stem: Seq<char>,
    extension: Seq<char>,
)
    requires
        directory.len() == 0 || directory.last() == '/',
        stem.len() > 0,
        !stem.contains('/'),
        !extension.contains('/') && !extension.contains('.'),
        stem.push('.') + extension != ".."@,
    ensures
        path_extension(directory + stem.push('.') + extension) == Some(extension),
        without_extension(directory + stem.push('.') + extension) == directory + stem,
{
    reveal_strlit("");
    reveal_strlit(".");
    let name = stem.push('.') + extension;
    let path = directory + stem.push('.') + extension;
    assert(path =~= directory + name);
    assert(!name.contains('/')) by {
        if name.contains('/') {
            let k = choose|k: int| 0 <= k < name.len() && name[k] == '/';
            if k < stem.len() {
                assert(stem[k] == '/');
            } else if k > stem.len() {
                assert(extension[k - stem.len() - 1] == '/');
            }
        }
    }
    if directory.len() == 0 {
        assert(path =~= name);
        lemma_one_segment(name);
        assert(segments(path).last() == name);
    } else {
        let before = directory.drop_last();
        assert(path =~= before.push('/') + name);
        lemma_segments_end(before, name);
        assert(segments(path).last() == name);
    }
    assert(name.len() >= 2);
    assert(last_name(segments(path)) == Some(name));
    lemma_last_dot(stem, extension);
    assert(name.skip(stem.len() as int + 1) =~= extension);
    assert(extension_of(name) == Some(extension));
    assert(path.last() == name.last());
    assert(path[path.len() - 2] == name[name.len() - 2]);
    assert(name.contains(name[name.len() - 1]) && name.contains(name[name.len() - 2]));
    assert(named_part(path) == path);
    assert(without_extension(path) =~= directory + stem);
}

/// A file without a dot in its name, or with one only in front, has no extension, and its path is
/// left whole.
pub proof fn a_name_without_a_dot_has_no_extension(directory: Seq<char>, name: Seq<char>)
    requires
        directory.len() == 0 || directory.last() == '/',
        name.len() > 0,
        !name.contains('/'),
        name != ".."@ && name != "."@,
        forall|i: int| 1 <= i < name.len() ==> #[trigger] name[i] != '.',
    ensures
        path_extension(directory + name) is None,
        without_extension(directory + name) == directory + name,
{
    reveal_strlit("");
    reveal_strlit(".");
    let path = directory + name;
    if directory.len() == 0 {
        assert(path =~= name);
        lemma_one_segment(name);
        assert(segments(path).last() == name);
    } else {
        let before = directory.drop_last();
        assert(path =~= before.push('/') + name);
        lemma_segments_end(before, name);
        assert(segments(path).last() == name);
    }
    lemma_no_dot(name);
    assert(path.last() == name.last());
    assert(name.contains(name[name.len() - 1]));
    if name.len() == 1 {
        if name[0] == '.' {
            assert(name =~= "."@);
        }
    }
    assert(named_part(path) == path);
}

proof fn lemma_no_dot(name: Seq<char>)
    requires
        forall|i: int| 1 <= i < name.len() ==> #[trigger] name[i] != '.',
    ensures
        last_dot(name) <= 0,
    decreases name.len(),
{
    if name.len() > 1 {
        assert(name[name.len() - 1] != '.');
        let front = name.drop_last();
        assert forall|i: int| 1 <= i < front.len() implies #[trigger] front[i] != '.' by {
            assert(name[i] != '.');
        }
        lemma_no_dot(front);
    } else if name.len() == 1 {
        reveal_with_fuel(last_dot, 2);
        assert(name.drop_last() =~= seq![]);
    }
}

/// The extension that is found, and the path that is left without it, are those of the file that
/// the path names.
pub proof fn an_extension_is_found_and_stripped(
    path: &str,
    found: Option<String>,
    stripped: String,
    directory: Seq<char>,
    stem: Seq<char>,
    extension_given: Seq<char>,
)
    requires
        call_ensures(extension, (path,), found),
        call_ensures(strip_extension, (path,), stripped),
        path@ == directory + stem.push('.') + extension_given,
        directory.len() == 0 || directory.last() == '/',
        stem.len() > 0,
        !stem.contains('/'),
        !extension_given.contains('/') && !extension_given.contains('.'),
        stem.push('.') + extension_given != ".."@,
    ensures
        found matches Some(e) && e@ == extension_given,
        stripped@ == directory + stem,
{
    an_extension_stands_behind_the_last_dot(directory, stem, extension_given);
}

} // verus!

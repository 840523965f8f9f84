//! What an archive holds and where it goes, and what is said of it. Reading the file and writing
//! what it holds is the caller's part.

use vstd::prelude::*;

use crate::path::{
    an_extension_stands_behind_the_last_dot, is_absolute, starts_at_root, strip_extension,
    without_extension,
};
use crate::text::{decimal, decimal_text, occurs_at, occurs_in, views};
use crate::tools::file_upzip::UnzipFileArgs;

verus! {

/// What is said of arguments that could not be decoded.
pub const INVALID_ARGUMENTS: &'static str = "invalid file unzip arguments";

/// How many names a summary lists.
pub const MAX_LISTED_NAMES: usize = 20;

/// The directory an archive is extracted to.
pub open spec fn destination(args: UnzipFileArgs) -> Seq<char> {
    match args.extract_to {
        Some(directory) => directory@,
        None => without_extension(args.zip_path@),
    }
}

/// The directory to extract to, or what is said where there is no archive.
pub fn run(args: &UnzipFileArgs, exists: bool) -> (directory: Result<String, String>)
    ensures
        match directory {
            Ok(path) => exists && path@ == destination(*args),
            Err(text) => !exists && text@ == "File not found: "@ + args.zip_path@,
        },
{
    if !exists {
        let mut text = "File not found: ".to_owned();
        text.append(args.zip_path.as_str());
        return Err(text);
    }
    match &args.extract_to {
        Some(directory) => Ok(directory.clone()),
        None => Ok(strip_extension(args.zip_path.as_str())),
    }
}

/// An error of the `zip` crate.
#[verifier::external_type_specification]
#[verifier::external_body]
pub struct ExZipError(zip::result::ZipError);

/// One entry of an archive.
#[derive(Debug, PartialEq, Eq)]
pub struct ArchiveEntry {
    /// Its path inside the archive.
    pub name: String,
    pub is_dir: bool,
    /// What it holds, decompressed; nothing for a directory.
    pub contents: Vec<u8>,
}

/// What is known of one entry: its path, whether it is a directory, and what it holds.
pub open spec fn entry_view(entry: ArchiveEntry) -> (Seq<char>, bool, Seq<u8>) {
    (entry.name@, entry.is_dir, entry.contents@)
}

/// What is known of each of some entries.
pub open spec fn entry_views(entries: Seq<ArchiveEntry>) -> Seq<(Seq<char>, bool, Seq<u8>)> {
    entries.map_values(|entry: ArchiveEntry| entry_view(entry))
}

/// The paths of some entries.
pub open spec fn names_in(entries: Seq<(Seq<char>, bool, Seq<u8>)>) -> Seq<Seq<char>> {
    entries.map_values(|entry: (Seq<char>, bool, Seq<u8>)| entry.0)
}

/// An open archive of the `zip` crate.
#[verifier::external_type_specification]
#[verifier::external_body]
#[verifier::reject_recursive_types(R)]
pub struct ExZipArchive<R>(zip::ZipArchive<R>);

/// A place in some bytes, of std.
#[verifier::external_type_specification]
#[verifier::external_body]
#[verifier::reject_recursive_types(T)]
pub struct ExCursor<T>(std::io::Cursor<T>);

/// The bytes that an open archive reads.
pub uninterp spec fn archive_bytes(archive: zip::ZipArchive<std::io::Cursor<Vec<u8>>>) -> Seq<u8>;

/// Whether `zip` takes bytes for an archive.
pub uninterp spec fn is_archive(bytes: Seq<u8>) -> bool;

/// How many entries `zip` finds in the bytes of an archive.
pub uninterp spec fn entry_count(bytes: Seq<u8>) -> nat;

/// The path of an entry and whether it is a directory, where `zip` can open the entry.
pub uninterp spec fn entry_head(bytes: Seq<u8>, index: nat) -> Option<(Seq<char>, bool)>;

/// What an entry holds, where `zip` can open and decompress it.
pub uninterp spec fn entry_data(bytes: Seq<u8>, index: nat) -> Option<Seq<u8>>;

/// `zip::ZipArchive::new`, over the bytes. Which bytes are an archive depends on them alone; the
/// format itself is not spelled out here.
#[verifier::external_body]
fn open_archive(bytes: &[u8]) -> (opened: Result<
    zip::ZipArchive<std::io::Cursor<Vec<u8>>>,
    zip::result::ZipError,
>)
    ensures
        opened is Ok == is_archive(bytes@),
        opened matches Ok(archive) ==> archive_bytes(archive) == bytes@,
{
    zip::ZipArchive::new(std::io::Cursor::new(bytes.to_vec()))
}

/// `zip::ZipArchive::len`: how many entries an archive has, which depends on its bytes alone.
#[verifier::external_body]
fn count_entries(archive: &zip::ZipArchive<std::io::Cursor<Vec<u8>>>) -> (count: usize)
    ensures
        count == entry_count(archive_bytes(*archive)),
{
    archive.len()
}

/// `zip::ZipArchive::by_index`, with the entry's name and its kind. Its data is not read. What it
/// gives depends on the archive's bytes and the index alone, and reading changes neither.
#[verifier::external_body]
fn read_head(archive: &mut zip::ZipArchive<std::io::Cursor<Vec<u8>>>, index: usize) -> (head: Result<
    (String, bool),
    zip::result::ZipError,
>)
    ensures
        archive_bytes(*final(archive)) == archive_bytes(*old(archive)),
        match head {
            Ok((name, is_dir)) => entry_head(archive_bytes(*old(archive)), index as nat) == Some(
                (name@, is_dir),
            ),
            Err(_) => entry_head(archive_bytes(*old(archive)), index as nat) is None,
        },
{
    let file = archive.by_index(index)?;
    Ok((file.name()?.into_owned(), file.is_dir()))
}

/// `zip::read::ZipFile`'s `Read`, to the end of the entry that `by_index` opens. What it gives
/// depends on the archive's bytes and the index alone, and reading changes neither.
#[verifier::external_body]
fn read_data(archive: &mut zip::ZipArchive<std::io::Cursor<Vec<u8>>>, index: usize) -> (data: Result<
    Vec<u8>,
    zip::result::ZipError,
>)
    ensures
        archive_bytes(*final(archive)) == archive_bytes(*old(archive)),
        match data {
            Ok(contents) => entry_data(archive_bytes(*old(archive)), index as nat) == Some(
                contents@,
            ),
            Err(_) => entry_data(archive_bytes(*old(archive)), index as nat) is None,
        },
{
    let mut file = archive.by_index(index)?;
    let mut contents = Vec::new();
    std::io::copy(&mut file, &mut contents)?;
    Ok(contents)
}

/// What is known of one entry of an archive, where it can be read. The data of a directory is
/// left alone.
pub open spec fn entry_at(bytes: Seq<u8>, index: nat) -> Option<(Seq<char>, bool, Seq<u8>)> {
    match entry_head(bytes, index) {
        None => None,
        Some((name, is_dir)) => if is_dir {
            Some((name, true, seq![]))
        } else {
            match entry_data(bytes, index) {
                Some(data) => Some((name, false, data)),
                None => None,
            }
        },
    }
}

/// What is known of each entry of an archive, in order.
pub open spec fn unzipped(bytes: Seq<u8>) -> Seq<Option<(Seq<char>, bool, Seq<u8>)>> {
    Seq::new(entry_count(bytes), |i: int| entry_at(bytes, i as nat))
}

/// The entries before the first that could not be read.
pub open spec fn readable(outcomes: Seq<Option<(Seq<char>, bool, Seq<u8>)>>) -> Seq<
    (Seq<char>, bool, Seq<u8>),
>
    decreases outcomes.len(),
{
    if outcomes.len() == 0 {
        seq![]
    } else {
        match outcomes[0] {
            Some(entry) => seq![entry] + readable(outcomes.drop_first()),
            None => seq![],
        }
    }
}

/// Whether every entry could be read.
pub open spec fn all_read(outcomes: Seq<Option<(Seq<char>, bool, Seq<u8>)>>) -> bool {
    forall|i: int| 0 <= i < outcomes.len() ==> (#[trigger] outcomes[i]) is Some
}

/// The entries that can be extracted from bytes, in order.
pub open spec fn entries_of(bytes: Seq<u8>) -> Seq<(Seq<char>, bool, Seq<u8>)> {
    if is_archive(bytes) {
        readable(unzipped(bytes))
    } else {
        seq![]
    }
}

/// Whether bytes are an archive of which every entry can be read.
pub open spec fn is_whole(bytes: Seq<u8>) -> bool {
    is_archive(bytes) && all_read(unzipped(bytes))
}

fn read_entry(archive: &mut zip::ZipArchive<std::io::Cursor<Vec<u8>>>, index: usize) -> (read: Result<
    ArchiveEntry,
    zip::result::ZipError,
>)
    ensures
        archive_bytes(*final(archive)) == archive_bytes(*old(archive)),
        match read {
            Ok(entry) => entry_at(archive_bytes(*old(archive)), index as nat) == Some(
                entry_view(entry),
            ),
            Err(_) => entry_at(archive_bytes(*old(archive)), index as nat) is None,
        },
{
    let (name, is_dir) = match read_head(archive, index) {
        Ok(head) => head,
        Err(error) => return Err(error),
    };
    if is_dir {
        let contents: Vec<u8> = Vec::new();
        assert(contents@ =~= seq![]);
        return Ok(ArchiveEntry { name, is_dir, contents });
    }
    match read_data(archive, index) {
        Ok(contents) => Ok(ArchiveEntry { name, is_dir, contents }),
        Err(error) => Err(error),
    }
}

/// The entries of an archive up to the first that cannot be read, and why it cannot.
fn read_entries(bytes: &[u8]) -> (read: (Vec<ArchiveEntry>, Option<zip::result::ZipError>))
    ensures
        entry_views(read.0@) == entries_of(bytes@),
        read.1 is None == is_whole(bytes@),
{
    let mut entries: Vec<ArchiveEntry> = Vec::new();
    let ghost all = unzipped(bytes@);
    assert(entry_views(entries@) =~= seq![]);
    let mut archive = match open_archive(bytes) {
        Ok(archive) => archive,
        Err(error) => return (entries, Some(error)),
    };
    let total: usize = count_entries(&archive);
    let mut i: usize = 0;
    assert(all.skip(0) =~= all);
    assert(entry_views(entries@) + readable(all) =~= readable(all));
    while i < total
        invariant
            i <= total == all.len(),
            is_archive(bytes@),
            archive_bytes(archive) == bytes@,
            all == unzipped(bytes@),
            readable(all) == entry_views(entries@) + readable(all.skip(i as int)),
            forall|k: int| 0 <= k < i ==> (#[trigger] all[k]) is Some,
        decreases total - i,
    {
        assert(all.skip(i as int).drop_first() =~= all.skip(i + 1));
        let ghost before = entry_views(entries@);
        match read_entry(&mut archive, i) {
            Ok(entry) => {
                let ghost known = entry_view(entry);
                entries.push(entry);
                proof {
                    let rest = readable(all.skip(i + 1));
                    assert(entry_views(entries@) =~= before.push(known));
                    assert(before + (seq![known] + rest) =~= before.push(known) + rest);
                }
            },
            Err(error) => {
                assert(all[i as int] is None);
                assert(entry_views(entries@) + seq![] =~= entry_views(entries@));
                return (entries, Some(error));
            },
        }
        i += 1;
    }
    assert(entry_views(entries@) + readable(all.skip(i as int)) =~= entry_views(entries@));
    (entries, None)
}

/// Something to create on disk.
#[derive(Debug, PartialEq, Eq)]
pub struct Placed {
    pub path: String,
    /// What the file holds; nothing for a directory.
    pub contents: Option<Vec<u8>>,
}

/// Where an entry goes: its path behind the directory's. An absolute path stands for itself.
pub open spec fn place_of(directory: Seq<char>, name: Seq<char>) -> Seq<char> {
    if is_absolute(name) || directory.len() == 0 {
        name
    } else if directory.last() == '/' {
        directory + name
    } else {
        directory + "/"@ + name
    }
}

/// Whether `placed` is what is to be created for an entry.
pub open spec fn places(
    placed: Placed,
    directory: Seq<char>,
    entry: (Seq<char>, bool, Seq<u8>),
) -> bool {
    &&& placed.path@ == place_of(directory, entry.0)
    &&& match placed.contents {
        None => entry.1,
        Some(contents) => !entry.1 && contents@ == entry.2,
    }
}

/// Whether `placed` is what is to be created for some entries, in order.
pub open spec fn places_all(
    placed: Seq<Placed>,
    directory: Seq<char>,
    entries: Seq<(Seq<char>, bool, Seq<u8>)>,
) -> bool {
    &&& placed.len() == entries.len()
    &&& forall|i: int| 0 <= i < placed.len() ==> places(#[trigger] placed[i], directory, entries[i])
}

fn join_path(directory: &str, name: &str) -> (path: String)
    ensures
        path@ == place_of(directory@, name@),
{
    let width: usize = directory.unicode_len();
    if starts_at_root(name) || width == 0 {
        return name.to_owned();
    }
    let mut path = directory.to_owned();
    if directory.get_char(width - 1) != '/' {
        path.append("/");
    }
    path.append(name);
    path
}

/// What is to be created in `directory` for the entries of an archive, in order.
pub fn place(directory: &str, entries: Vec<ArchiveEntry>) -> (placed: Vec<Placed>)
    ensures
        places_all(placed@, directory@, entry_views(entries@)),
{
    let ghost all = entries@;
    let mut left = entries;
    let mut placed: Vec<Placed> = Vec::new();
    let total: usize = left.len();
    let mut i: usize = 0;
    assert(left@ =~= all.skip(0));
    while i < total
        invariant
            i <= total == all.len(),
            left@ == all.skip(i as int),
            placed@.len() == i,
            forall|k: int|
                0 <= k < i ==> places(#[trigger] placed@[k], directory@, entry_view(all[k])),
        decreases total - i,
    {
        let entry = left.remove(0);
        assert(entry == all[i as int]);
        assert(left@ =~= all.skip(i + 1));
        let path = join_path(directory, entry.name.as_str());
        let contents = if entry.is_dir {
            None
        } else {
            Some(entry.contents)
        };
        placed.push(Placed { path, contents });
        i += 1;
    }
    assert forall|k: int| 0 <= k < placed@.len() implies places(
        #[trigger] placed@[k],
        directory@,
        entry_views(all)[k],
    ) by {
        assert(entry_views(all)[k] == entry_view(all[k]));
    }
    placed
}

/// An archive that cannot be read to its end.
#[derive(Debug)]
pub struct UnreadableArchive {
    pub cause: zip::result::ZipError,
}

/// An archive as far as it could be read.
#[derive(Debug)]
pub struct Extraction {
    /// What is to be created, in order.
    pub placed: Vec<Placed>,
    /// The names of the entries, in order.
    pub names: Vec<String>,
    /// What kept the rest from being read.
    pub failure: Option<UnreadableArchive>,
}

/// What is to be created in `directory` for the archive that `bytes` hold. What can be read of
/// a broken archive is handed back beside the failure.
pub fn extract(directory: &str, bytes: &[u8]) -> (extraction: Extraction)
    ensures
        places_all(extraction.placed@, directory@, entries_of(bytes@)),
        views(extraction.names@) == names_in(entries_of(bytes@)),
        (extraction.failure is None) == is_whole(bytes@),
{
    let (entries, error) = read_entries(bytes);
    let ghost known = names_in(entry_views(entries@));
    let mut names: Vec<String> = Vec::new();
    let mut i: usize = 0;
    assert(views(names@) =~= known.take(0));
    while i < entries.len()
        invariant
            i <= entries@.len(),
            known == names_in(entry_views(entries@)),
            views(names@) == known.take(i as int),
        decreases entries@.len() - i,
    {
        let ghost before = names@;
        names.push(entries[i].name.clone());
        assert(known[i as int] == entries@[i as int].name@);
        assert(views(names@) =~= views(before).push(known[i as int]));
        assert(known.take(i + 1) =~= known.take(i as int).push(known[i as int]));
        i += 1;
    }
    assert(known.take(i as int) =~= known);
    let placed = place(directory, entries);
    let failure = match error {
        Some(cause) => Some(UnreadableArchive { cause }),
        None => None,
    };
    Extraction { placed, names, failure }
}

/// One line for each of some names.
pub open spec fn name_lines(names: Seq<Seq<char>>) -> Seq<char>
    decreases names.len(),
{
    if names.len() == 0 {
        seq![]
    } else {
        name_lines(names.drop_last()) + (". - "@ + names.last() + "\n"@)
    }
}

/// How many of `n` names are listed.
pub open spec fn listed(n: nat) -> int {
    if n <= MAX_LISTED_NAMES {
        n as int
    } else {
        MAX_LISTED_NAMES as int
    }
}

/// What is said of an extracted archive: how much it held and where it went, its first names,
/// and how many more there are.
pub open spec fn summary_text(names: Seq<Seq<char>>, directory: Seq<char>) -> Seq<char> {
    "Extracted "@ + decimal(names.len()) + " files to "@ + directory + "/\n\nContents:\n"@
        + name_lines(names.take(listed(names.len()))) + if names.len() > MAX_LISTED_NAMES {
        "  ... and "@ + decimal((names.len() - MAX_LISTED_NAMES) as nat) + " more files\n"@
    } else {
        seq![]
    }
}

/// What is said of an extracted archive, given the names it held.
pub fn summary(names: &Vec<String>, directory: &str) -> (text: String)
    ensures
        text@ == summary_text(views(names@), directory@),
{
    let total: usize = names.len();
    let count = decimal_text(total as u64);
    let mut text = "Extracted ".to_owned();
    text.append(count.as_str());
    text.append(" files to ");
    text.append(directory);
    text.append("/\n\nContents:\n");
    let ghost opening = text@;
    let ghost all = views(names@);
    let mut i: usize = 0;
    assert(opening + name_lines(all.take(0)) =~= opening);
    while i < total && i < MAX_LISTED_NAMES
        invariant
            i <= total == names@.len(),
            i <= MAX_LISTED_NAMES,
            all == views(names@),
            text@ == opening + name_lines(all.take(i as int)),
        decreases total - i,
    {
        let ghost shown = name_lines(all.take(i as int));
        proof {
            let next = all.take(i + 1);
            assert(next.drop_last() =~= all.take(i as int));
            assert(next.last() == names@[i as int]@);
        }
        text.append(". - ");
        text.append(names[i].as_str());
        text.append("\n");
        assert(text@ =~= opening + (shown + (". - "@ + names@[i as int]@ + "\n"@)));
        i += 1;
    }
    assert(i == listed(all.len()));
    if total > MAX_LISTED_NAMES {
        let more = decimal_text((total - MAX_LISTED_NAMES) as u64);
        text.append("  ... and ");
        text.append(more.as_str());
        text.append(" more files\n");
    }
    assert(text@ =~= summary_text(all, directory@));
    text
}

/// What can be extracted are the entries before the first that cannot be read, each as it is.
pub proof fn extraction_stops_at_the_first_unreadable(
    outcomes: Seq<Option<(Seq<char>, bool, Seq<u8>)>>,
)
    ensures
        ({
            let taken = readable(outcomes);
            &&& taken.len() <= outcomes.len()
            &&& forall|i: int| 0 <= i < taken.len() ==> outcomes[i] == Some(#[trigger] taken[i])
            &&& taken.len() < outcomes.len() ==> outcomes[taken.len() as int] is None
            &&& taken.len() == outcomes.len() <==> all_read(outcomes)
        }),
    decreases outcomes.len(),
{
    let taken = readable(outcomes);
    if outcomes.len() > 0 {
        match outcomes[0] {
            Some(entry) => {
                let rest = outcomes.drop_first();
                let more = readable(rest);
                extraction_stops_at_the_first_unreadable(rest);
                assert forall|i: int| 0 <= i < taken.len() implies outcomes[i] == Some(
                    #[trigger] taken[i],
                ) by {
                    if i > 0 {
                        assert(rest[i - 1] == Some(more[i - 1]));
                    }
                }
                if taken.len() < outcomes.len() {
                    assert(rest[more.len() as int] == outcomes[taken.len() as int]);
                }
                if all_read(outcomes) {
                    assert forall|i: int| 0 <= i < rest.len() implies (#[trigger] rest[i]) is Some by {
                        assert(outcomes[i + 1] is Some);
                    }
                }
                if all_read(rest) {
                    assert forall|i: int| 0 <= i < outcomes.len() implies (
                    #[trigger] outcomes[i]) is Some by {
                        if i > 0 {
                            assert(rest[i - 1] is Some);
                        }
                    }
                }
            },
            None => {},
        }
    }
}

/// An entry goes where its path leads from the directory: the place starts with the directory and
/// ends in the path, with one separator between them, unless the path starts at the root.
pub proof fn an_entry_goes_behind_the_directory(directory: Seq<char>, name: Seq<char>)
    ensures
        name.len() > 0 && name[0] == '/' ==> place_of(directory, name) == name,
        directory.len() == 0 ==> place_of(directory, name) == name,
        directory.len() > 0 && (name.len() == 0 || name[0] != '/') ==> place_of(directory, name)
            == if directory.last() == '/' {
            directory + name
        } else {
            directory.push('/') + name
        },
{
    reveal_strlit("/");
    assert("/"@ =~= seq!['/']);
    assert(directory + "/"@ + name =~= directory.push('/') + name);
}

/// A summary gives the number of entries and where they went, and lists the first 20 names, one on
/// each line, and how many more there are.
pub proof fn a_summary_lists_the_names(names: Seq<Seq<char>>, directory: Seq<char>, k: int)
    ensures
        ("Extracted "@ + decimal(names.len()) + " files to "@ + directory).is_prefix_of(
            summary_text(names, directory),
        ),
        0 <= k < names.len() && k < 20 ==> occurs_in(
            summary_text(names, directory),
            ". - "@ + names[k] + "\n"@,
        ),
        names.len() > 20 ==> occurs_in(
            summary_text(names, directory),
            "... and "@ + decimal((names.len() - 20) as nat) + " more files"@,
        ),
{
    let opening = "Extracted "@ + decimal(names.len()) + " files to "@ + directory;
    let text = summary_text(names, directory);
    assert(text.take(opening.len() as int) =~= opening);
    let shown = names.take(listed(names.len()));
    let all = name_lines(shown);
    let start = opening.len() + "/\n\nContents:\n"@.len();
    assert(text.subrange(start as int, (start + all.len()) as int) =~= all);
    if 0 <= k < names.len() && k < 20 {
        lemma_name_line(shown, k);
        let line = ". - "@ + names[k] + "\n"@;
        let at = choose|at: int| occurs_at(all, line, at);
        assert(occurs_at(all, line, at));
        assert(text.subrange(start + at, start + at + line.len()) =~= line) by {
            assert forall|i: int| 0 <= i < line.len() implies text[start + at + i] == line[i] by {
                assert(all.subrange(at, at + line.len())[i] == all[at + i]);
                assert(text.subrange(start as int, (start + all.len()) as int)[at + i] == text[start
                    + at + i]);
            }
        }
        assert(occurs_at(text, line, start + at));
    }
    if names.len() > 20 {
        reveal_strlit("  ... and ");
        reveal_strlit("... and ");
        reveal_strlit(" more files\n");
        reveal_strlit(" more files");
        let more = "... and "@ + decimal((names.len() - 20) as nat) + " more files"@;
        let at = start + all.len() + 2;
        assert(text.subrange(at as int, (at + more.len()) as int) =~= more);
        assert(occurs_at(text, more, at as int));
    }
}

proof fn lemma_name_line(names: Seq<Seq<char>>, k: int)
    requires
        0 <= k < names.len(),
    ensures
        occurs_in(name_lines(names), ". - "@ + names[k] + "\n"@),
    decreases names.len(),
{
    let all = name_lines(names);
    let front = names.drop_last();
    let before = name_lines(front);
    let line = ". - "@ + names[k] + "\n"@;
    if k == names.len() - 1 {
        let at = before.len() as int;
        assert(all.subrange(at, at + line.len()) =~= line);
        assert(occurs_at(all, line, at));
    } else {
        lemma_name_line(front, k);
        assert(front[k] == names[k]);
        let at = choose|at: int| occurs_at(before, line, at);
        assert(occurs_at(before, line, at));
        assert(all.subrange(at, at + line.len()) =~= before.subrange(at, at + line.len()));
        assert(occurs_at(all, line, at));
    }
}

/// What is created for each entry, in order, is a directory or a file with all that the entry holds,
/// at a path that ends in the entry's own.
pub proof fn each_entry_is_created_whole(
    directory: &str,
    entries: Vec<ArchiveEntry>,
    placed: Vec<Placed>,
    i: int,
)
    requires
        call_ensures(place, (directory, entries), placed),
        0 <= i < entries@.len(),
    ensures
        placed@.len() == entries@.len(),
        placed@[i].contents is None == entries@[i].is_dir,
        placed@[i].contents matches Some(contents) ==> contents@ == entries@[i].contents@,
        placed@[i].path@.len() >= entries@[i].name@.len(),
        placed@[i].path@.skip(placed@[i].path@.len() - entries@[i].name@.len())
            == entries@[i].name@,
{
    let known = entry_views(entries@);
    assert(known[i] == entry_view(entries@[i]));
    assert(places(placed@[i], directory@, known[i]));
    an_entry_goes_behind_the_directory(directory@, entries@[i].name@);
    let path = placed@[i].path@;
    assert(path.skip(path.len() - entries@[i].name@.len()) =~= entries@[i].name@);
}

/// An archive is extracted where the caller says, and else beside it, in a directory named as the
/// archive is without its extension.
pub proof fn an_archive_goes_where_it_is_sent(
    args: &UnzipFileArgs,
    exists: bool,
    directory: Result<String, String>,
    before: Seq<char>,
    stem: Seq<char>,
)
    requires
        call_ensures(run, (args, exists), directory),
    ensures
        directory is Ok == exists,
        exists && args.extract_to is Some ==> (directory matches Ok(path) && path@
            == args.extract_to->0@),
        exists && args.extract_to is None && args.zip_path@ == before + stem + seq![
            '.',
            'z',
            'i',
            'p',
        ] && (before.len() == 0 || before.last() == '/') && stem.len() > 0 && !stem.contains('/')
            ==> (directory matches Ok(path) && path@ == before + stem),
{
    if exists && args.extract_to is None && args.zip_path@ == before + stem + seq![
        '.',
        'z',
        'i',
        'p',
    ] && (before.len() == 0 || before.last() == '/') && stem.len() > 0 && !stem.contains('/') {
        let extension = seq!['z', 'i', 'p'];
        reveal_strlit("..");
        assert((stem.push('.') + extension).len() > 2);
        assert(args.zip_path@ =~= before + stem.push('.') + extension);
        an_extension_stands_behind_the_last_dot(before, stem, extension);
    }
}

} // verus!

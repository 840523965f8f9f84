//! How a file is shown. Reading it from disk is the caller's part.

use vstd::prelude::*;

use crate::path::{extension, path_extension};
use crate::text::{
    chars_of, decimal, decimal_text, decimals_read_back, join, joined, same_text, text_of, views,
};
use crate::tools::file_read::ReadFileArgs;

verus! {

/// What is said of arguments that could not be decoded.
pub const INVALID_ARGUMENTS: &'static str = "invalid file read arguments";

/// How a file is to be shown.
#[derive(Debug, Clone, Copy, PartialEq, Eq, Structural)]
pub enum Reading {
    /// As a table.
    Table,
    /// As text with line numbers.
    Text,
}

/// How a file is to be shown, by its extension, or what is said where there is none.
pub fn run(args: &ReadFileArgs, exists: bool) -> (reading: Result<Reading, String>)
    ensures
        match reading {
            Ok(how) => exists && how == if path_extension(args.file_path@) == Some("csv"@) {
                Reading::Table
            } else {
                Reading::Text
            },
            Err(text) => !exists && text@ == "File not found: "@ + args.file_path@,
        },
{
    if !exists {
        let mut text = "File not found: ".to_owned();
        text.append(args.file_path.as_str());
        return Err(text);
    }
    match extension(args.file_path.as_str()) {
        Some(found) => {
            if same_text(found.as_str(), "csv") {
                return Ok(Reading::Table);
            }
        },
        None => {},
    }
    Ok(Reading::Text)
}

/// A line without the carriage return at its end.
pub open spec fn without_return(line: Seq<char>) -> Seq<char> {
    if line.len() > 0 && line.last() == '\r' {
        line.drop_last()
    } else {
        line
    }
}

/// The lines of a text that are ended, and what follows the last of them.
pub open spec fn split_lines(s: Seq<char>) -> (Seq<Seq<char>>, Seq<char>)
    decreases s.len(),
{
    if s.len() == 0 {
        (seq![], seq![])
    } else {
        let (done, current) = split_lines(s.drop_last());
        if s.last() == '\n' {
            (done.push(without_return(current)), seq![])
        } else {
            (done, current.push(s.last()))
        }
    }
}

/// The lines of a text. A line ends in a line feed, perhaps behind a carriage return; the last
/// one need not be ended.
pub open spec fn lines_of(s: Seq<char>) -> Seq<Seq<char>> {
    let (done, current) = split_lines(s);
    if current.len() == 0 {
        done
    } else {
        done.push(current)
    }
}

/// The range of lines to show out of `total`: clamped rather than refused.
pub open spec fn line_range(total: int, start_line: int, end_line: int) -> (int, int) {
    let start = if start_line > 0 {
        start_line - 1
    } else {
        0
    };
    let end = if end_line < 0 || end_line > total {
        total
    } else {
        end_line
    };
    (start, if end < start {
        start
    } else {
        end
    })
}

/// A text pushed to the right, to a width of four.
pub open spec fn aligned(text: Seq<char>) -> Seq<char> {
    if text.len() == 0 {
        "    "@
    } else if text.len() == 1 {
        "   "@ + text
    } else if text.len() == 2 {
        "  "@ + text
    } else if text.len() == 3 {
        " "@ + text
    } else {
        text
    }
}

/// Lines `start` to `end`, each with its number, counted from one.
pub open spec fn numbered(lines: Seq<Seq<char>>, start: int, end: int) -> Seq<char>
    decreases end - start,
{
    if end <= start {
        seq![]
    } else {
        numbered(lines, start, end - 1) + (aligned(decimal(end as nat)) + " | "@ + lines[end - 1]
            + "\n"@)
    }
}

fn split_text(content: &str) -> (lines: Vec<String>)
    ensures
        views(lines@) == lines_of(content@),
{
    let chars = chars_of(content);
    let mut lines: Vec<String> = Vec::new();
    let mut current: Vec<char> = Vec::new();
    let mut i: usize = 0;
    proof {
        let none: Seq<Seq<char>> = seq![];
        assert(views(lines@) =~= none);
        assert(current@ =~= split_lines(chars@.take(0)).1);
    }
    while i < chars.len()
        invariant
            i <= chars@.len(),
            views(lines@) == split_lines(chars@.take(i as int)).0,
            current@ == split_lines(chars@.take(i as int)).1,
        decreases chars@.len() - i,
    {
        proof {
            let next = chars@.take(i + 1);
            assert(next.drop_last() =~= chars@.take(i as int));
        }
        let c = chars[i];
        if c == '\n' {
            let ghost before = views(lines@);
            let ghost line = without_return(current@);
            if current.len() > 0 && current[current.len() - 1] == '\r' {
                current.pop();
            }
            let text = text_of(current.as_slice());
            assert(text@ =~= line);
            lines.push(text);
            assert(views(lines@) =~= before.push(line));
            current = Vec::new();
            assert(current@ =~= split_lines(chars@.take(i + 1)).1);
        } else {
            current.push(c);
        }
        i += 1;
    }
    assert(chars@.take(i as int) =~= chars@);
    if current.len() > 0 {
        let ghost before = views(lines@);
        lines.push(text_of(current.as_slice()));
        assert(views(lines@) =~= before.push(current@));
    }
    lines
}

fn push_aligned(text: &mut String, number: &str)
    ensures
        final(text)@ == old(text)@ + aligned(number@),
{
    let ghost before = text@;
    let width: usize = number.unicode_len();
    if width == 0 {
        text.append("    ");
    } else if width == 1 {
        text.append("   ");
    } else if width == 2 {
        text.append("  ");
    } else if width == 3 {
        text.append(" ");
    }
    text.append(number);
    proof {
        reveal_strlit("    ");
        assert(text@ =~= before + aligned(number@));
    }
}

/// Show the lines `start_line` to `end_line` of a text, counted from one and both of them
/// included, each with its number. A range that is reversed or lies outside of the text shows
/// nothing.
pub fn number_lines(content: &str, start_line: usize, end_line: i64) -> (text: String)
    ensures
        ({
            let lines = lines_of(content@);
            let (start, end) = line_range(lines.len() as int, start_line as int, end_line as int);
            text@ == numbered(lines, start, end)
        }),
{
    let lines = split_text(content);
    let total: usize = lines.len();
    let start: usize = if start_line > 0 {
        start_line - 1
    } else {
        0
    };
    let end: usize = if end_line < 0 || end_line as u64 > total as u64 {
        total
    } else {
        end_line as usize
    };
    let mut text = String::new();
    let mut i: usize = start;
    proof {
        assert(views(lines@).len() == total);
        assert(text@ =~= numbered(views(lines@), start as int, start as int));
    }
    while i < end
        invariant
            start <= i,
            i <= end || i == start,
            end <= total == lines@.len(),
            text@ == numbered(views(lines@), start as int, i as int),
        decreases end - i,
    {
        let ghost before = text@;
        let number = decimal_text(i as u64 + 1);
        push_aligned(&mut text, number.as_str());
        text.append(" | ");
        text.append(lines[i].as_str());
        text.append("\n");
        assert(text@ =~= before + (aligned(decimal((i + 1) as nat)) + " | "@ + lines@[i as int]@
            + "\n"@));
        i += 1;
    }
    text
}

/// How many line feeds a text holds.
pub open spec fn line_feeds(s: Seq<char>) -> nat
    decreases s.len(),
{
    if s.len() == 0 {
        0
    } else {
        line_feeds(s.drop_last()) + if s.last() == '\n' {
            1nat
        } else {
            0nat
        }
    }
}

/// Some lines with a line feed behind each, and a carriage return before it where `crs` says
/// so.
pub open spec fn ended(lines: Seq<Seq<char>>, crs: Seq<bool>) -> Seq<char>
    decreases lines.len(),
{
    if lines.len() == 0 {
        seq![]
    } else {
        ended(lines.drop_last(), crs.drop_last()) + lines.last() + if crs.last() {
            seq!['\r', '\n']
        } else {
            seq!['\n']
        }
    }
}

/// Whether `crs` tells which of some lines were ended by a carriage return too: no other line
/// ends in one.
pub open spec fn tells_crs(lines: Seq<Seq<char>>, crs: Seq<bool>) -> bool {
    &&& crs.len() == lines.len()
    &&& forall|i: int|
        0 <= i < lines.len() && !(#[trigger] crs[i]) && lines[i].len() > 0 ==> lines[i].last()
            != '\r'
}

proof fn lemma_split_lines(s: Seq<char>)
    ensures
        ({
            let (done, current) = split_lines(s);
            &&& done.len() == line_feeds(s)
            &&& (s.len() == 0 || s.last() == '\n') == (current.len() == 0)
            &&& !current.contains('\n')
            &&& forall|i: int| 0 <= i < done.len() ==> !(#[trigger] done[i]).contains('\n')
            &&& exists|crs: Seq<bool>| #[trigger]
                tells_crs(done, crs) && s == ended(done, crs) + current
        }),
    decreases s.len(),
{
    if s.len() == 0 {
        let none: Seq<bool> = seq![];
        assert(tells_crs(split_lines(s).0, none));
        assert(s =~= ended(split_lines(s).0, none) + split_lines(s).1);
    } else {
        let front = s.drop_last();
        lemma_split_lines(front);
        let (before, held) = split_lines(front);
        let (done, current) = split_lines(s);
        let crs = choose|crs: Seq<bool>| #[trigger]
            tells_crs(before, crs) && front == ended(before, crs) + held;
        assert(s =~= front.push(s.last()));
        if s.last() == '\n' {
            let line = without_return(held);
            let mark = held.len() > 0 && held.last() == '\r';
            let marks = crs.push(mark);
            assert(done.drop_last() =~= before);
            assert(marks.drop_last() =~= crs);
            assert forall|i: int| 0 <= i < done.len() implies !(#[trigger] done[i]).contains(
                '\n',
            ) by {
                if i < before.len() {
                    assert(done[i] == before[i]);
                } else if line.contains('\n') {
                    let k = choose|k: int| 0 <= k < line.len() && line[k] == '\n';
                    assert(held[k] == '\n');
                }
            }
            assert forall|i: int|
                0 <= i < done.len() && !(#[trigger] marks[i]) && done[i].len()
                    > 0 implies done[i].last() != '\r' by {
                if i < before.len() {
                    assert(marks[i] == crs[i]);
                    assert(done[i] == before[i]);
                }
            }
            if mark {
                assert(held =~= line.push('\r'));
            }
            assert(tells_crs(done, marks));
            assert(s =~= ended(done, marks) + current);
        } else {
            assert(tells_crs(done, crs));
            assert(s =~= ended(done, crs) + current);
            if current.contains('\n') {
                let k = choose|k: int| 0 <= k < current.len() && current[k] == '\n';
                if k < held.len() {
                    assert(held[k] == '\n');
                }
            }
        }
    }
}

/// Splitting loses no line: a text has as many lines as line feeds, and one more where something
/// follows the last of these. No line holds a line feed, and the lines, with what ended each of
/// them, make up the text again.
pub proof fn splitting_loses_no_line(s: Seq<char>)
    ensures
        lines_of(s).len() == line_feeds(s) + if s.len() > 0 && s.last() != '\n' {
            1nat
        } else {
            0nat
        },
        forall|i: int| 0 <= i < lines_of(s).len() ==> !(#[trigger] lines_of(s)[i]).contains('\n'),
        exists|crs: Seq<bool>|
            {
                &&& #[trigger] tells_crs(lines_of(s).take(line_feeds(s) as int), crs)
                &&& s == ended(lines_of(s).take(line_feeds(s) as int), crs) + if s.len() > 0 && s.last() != '\n' {
                    lines_of(s).last()
                } else {
                    seq![]
                }
            },
{
    lemma_split_lines(s);
    let (done, current) = split_lines(s);
    let whole = lines_of(s).take(line_feeds(s) as int);
    assert(whole =~= done);
    let crs = choose|crs: Seq<bool>| #[trigger]
        tells_crs(done, crs) && s == ended(done, crs) + current;
    assert(tells_crs(whole, crs));
    if current.len() == 0 {
        assert(current =~= seq![]);
    }
}

/// The lines of a text without carriage returns, joined by line feeds, are the text again, but for
/// the line feed at its end.
pub proof fn lines_join_to_their_text(s: Seq<char>)
    requires
        !s.contains('\r'),
    ensures
        s == joined(lines_of(s), "\n"@) + if s.len() > 0 && s.last() == '\n' {
            "\n"@
        } else {
            ""@
        },
{
    reveal_strlit("\n");
    reveal_strlit("");
    splitting_loses_no_line(s);
    let lines = lines_of(s);
    let whole = lines.take(line_feeds(s) as int);
    let crs = choose|crs: Seq<bool>|
        {
            &&& #[trigger] tells_crs(whole, crs)
            &&& s == ended(whole, crs) + if s.len() > 0 && s.last() != '\n' {
                lines.last()
            } else {
                seq![]
            }
        };
    let head = ended(whole, crs);
    assert(!head.contains('\r')) by {
        if head.contains('\r') {
            let k = choose|k: int| 0 <= k < head.len() && head[k] == '\r';
            assert(s[k] == '\r');
        }
    }
    lemma_ended_joined(whole, crs);
    assert("\n"@ =~= seq!['\n']);
    if s.len() > 0 && s.last() != '\n' {
        assert(lines.drop_last() =~= whole);
        if whole.len() == 0 {
            assert(head =~= seq![]);
            assert(lines =~= seq![lines.last()]);
        }
        assert(s =~= joined(lines, "\n"@) + ""@);
    } else {
        assert(lines =~= whole);
        if s.len() > 0 {
            assert(whole.len() > 0) by {
                if whole.len() == 0 {
                    assert(head =~= seq![]);
                }
            }
        }
        assert(s =~= joined(lines, "\n"@) + if s.len() > 0 {
            "\n"@
        } else {
            ""@
        });
    }
}

proof fn lemma_ended_joined(lines: Seq<Seq<char>>, crs: Seq<bool>)
    requires
        tells_crs(lines, crs),
        !ended(lines, crs).contains('\r'),
    ensures
        lines.len() > 0 ==> ended(lines, crs) == joined(lines, seq!['\n']) + seq!['\n'],
    decreases lines.len(),
{
    if lines.len() > 0 {
        let text = ended(lines, crs);
        let front = ended(lines.drop_last(), crs.drop_last());
        if crs.last() {
            assert(text[(front.len() + lines.last().len()) as int] == '\r');
        }
        assert(!front.contains('\r')) by {
            if front.contains('\r') {
                let k = choose|k: int| 0 <= k < front.len() && front[k] == '\r';
                assert(text[k] == '\r');
            }
        }
        assert forall|i: int|
            0 <= i < lines.len() - 1 && !(#[trigger] crs.drop_last()[i])
                && lines.drop_last()[i].len() > 0 implies lines.drop_last()[i].last() != '\r' by {
            assert(crs[i] == crs.drop_last()[i]);
        }
        lemma_ended_joined(lines.drop_last(), crs.drop_last());
        if lines.len() == 1 {
            assert(front =~= seq![]);
            assert(text =~= lines[0] + seq!['\n']);
            assert(joined(lines, seq!['\n']) == lines[0]);
        } else {
            assert(text =~= joined(lines, seq!['\n']) + seq!['\n']);
        }
    }
}

/// The lines that are shown are those that were asked for, as far as there are such: counted from
/// one, from `start_line` on, and up to `end_line` where that is not negative.
pub proof fn the_lines_asked_for_are_shown(total: int, start_line: int, end_line: int, line: int)
    requires
        0 <= total,
        0 <= start_line,
    ensures
        ({
            let (start, end) = line_range(total, start_line, end_line);
            &&& 0 <= start <= end
            &&& (start < line <= end) == (1 <= line <= total && start_line <= line && (end_line < 0
                || line <= end_line))
        }),
{
}

/// Whether a text is nothing but blanks.
pub open spec fn only_blanks(s: Seq<char>) -> bool {
    forall|i: int| 0 <= i < s.len() ==> #[trigger] s[i] == ' '
}

/// Lines are shown one below the other, each behind its own number: blanks that fill up to four
/// places, the number, a bar and the whole line.
pub proof fn each_line_is_shown_with_its_number(
    lines: Seq<Seq<char>>,
    start: int,
    middle: int,
    end: int,
)
    requires
        0 <= start <= middle <= end <= lines.len(),
    ensures
        numbered(lines, start, end) == numbered(lines, start, middle) + numbered(
            lines,
            middle,
            end,
        ),
        numbered(lines, start, start) == Seq::<char>::empty(),
        middle < end ==> exists|blanks: Seq<char>|
            {
                let number = decimal((middle + 1) as nat);
                &&& #[trigger] only_blanks(blanks)
                &&& blanks.len() == if number.len() < 4 {
                    4 - number.len()
                } else {
                    0
                }
                &&& numbered(lines, middle, middle + 1) == blanks + number + seq![' ', '|', ' ']
                    + lines[middle] + seq!['\n']
            },
    decreases end,
{
    if middle < end {
        let number = decimal((middle + 1) as nat);
        decimals_read_back((middle + 1) as nat);
        reveal_strlit("   ");
        reveal_strlit("  ");
        reveal_strlit(" ");
        reveal_strlit(" | ");
        reveal_strlit("\n");
        let blanks = aligned(number).take(aligned(number).len() - number.len());
        assert(aligned(number) =~= blanks + number);
        assert(only_blanks(blanks));
        assert(numbered(lines, middle, middle) =~= seq![]);
        assert(" | "@ =~= seq![' ', '|', ' ']);
        assert("\n"@ =~= seq!['\n']);
        assert(numbered(lines, middle, middle + 1) =~= blanks + number + seq![' ', '|', ' ']
            + lines[middle] + seq!['\n']);
        each_line_is_shown_with_its_number(lines, start, middle, end - 1);
        assert(numbered(lines, start, end) =~= numbered(lines, start, middle) + numbered(
            lines,
            middle,
            end,
        ));
    } else {
        assert(numbered(lines, middle, end) =~= seq![]);
        assert(numbered(lines, start, end) =~= numbered(lines, start, middle) + numbered(
            lines,
            middle,
            end,
        ));
    }
}

/// A table shows every row on a line of its own, in order, with a bar on either side of each
/// field, and below the header a rule of as many columns.
pub proof fn a_table_shows_every_row(
    left: Seq<Seq<Seq<char>>>,
    right: Seq<Seq<Seq<char>>>,
    headers: Seq<Seq<char>>,
)
    ensures
        rows_text(left + right) == rows_text(left) + rows_text(right),
        table_text(headers, seq![]).is_prefix_of(table_text(headers, left)),
        table_text(headers, left).skip(table_text(headers, seq![]).len() as int) == rows_text(left),
        rows_text(seq![headers]) == "| "@ + joined(headers, " | "@) + " |\n"@,
        table_text(headers, seq![]).len() == rows_text(seq![headers]).len() + 4 * headers.len() + 2,
        rows_text(seq![headers]).is_prefix_of(table_text(headers, left)),
    decreases right.len(),
{
    reveal_with_fuel(rows_text, 2);
    assert(seq![headers].drop_last() =~= seq![]);
    assert(rows_text(seq![headers]) =~= row_text(headers));
    assert(table_text(headers, seq![]) =~= row_text(headers) + rule_text(headers.len()) + "\n"@);
    assert(table_text(headers, left).skip(table_text(headers, seq![]).len() as int) =~= rows_text(
        left,
    ));
    lemma_rule(headers.len());
    reveal_strlit("\n");
    if right.len() == 0 {
        assert(left + right =~= left);
        assert(rows_text(left) + rows_text(right) =~= rows_text(left));
    } else {
        a_table_shows_every_row(left, right.drop_last(), headers);
        assert((left + right).drop_last() =~= left + right.drop_last());
        assert(rows_text(left + right) =~= rows_text(left) + rows_text(right));
    }
}

proof fn lemma_rule(n: nat)
    ensures
        rule_text(n).len() == 4 * n + 1,
    decreases n,
{
    reveal_strlit("|");
    reveal_strlit("---|");
    if n > 0 {
        lemma_rule((n - 1) as nat);
    }
}

/// An error of the `csv` crate.
#[verifier::external_type_specification]
#[verifier::external_body]
pub struct ExCsvError(csv::Error);

/// The header row that `csv` reads from bytes in its default dialect; none where it refuses
/// them.
pub uninterp spec fn csv_headers(bytes: Seq<u8>) -> Option<Seq<Seq<char>>>;

/// The rows below the header that `csv` reads from bytes in its default dialect; none where it
/// refuses one of them.
pub uninterp spec fn csv_records(bytes: Seq<u8>) -> Option<Seq<Seq<Seq<char>>>>;

/// The fields of each of some rows.
pub open spec fn row_views(rows: Seq<Vec<String>>) -> Seq<Seq<Seq<char>>> {
    rows.map_values(|row: Vec<String>| views(row@))
}

/// `csv::Reader::headers`, on a reader with the default settings over the bytes. What it gives
/// depends on the bytes alone; how a row is parsed is not spelled out here.
#[verifier::external_body]
fn read_headers(bytes: &[u8]) -> (headers: Result<Vec<String>, csv::Error>)
    ensures
        headers is Ok == csv_headers(bytes@) is Some,
        headers is Ok ==> views(headers->Ok_0@) == csv_headers(bytes@)->Some_0,
{
    let mut reader = csv::Reader::from_reader(bytes);
    let headers = reader.headers()?;
    Ok(headers.iter().map(str::to_owned).collect())
}

/// `csv::Reader::records`, on a reader with the default settings over the bytes, up to its
/// first error. What it gives depends on the bytes alone; how a row is parsed is not spelled
/// out here.
#[verifier::external_body]
fn read_records(bytes: &[u8]) -> (records: Result<Vec<Vec<String>>, csv::Error>)
    ensures
        records is Ok == csv_records(bytes@) is Some,
        records is Ok ==> row_views(records->Ok_0@) == csv_records(bytes@)->Some_0,
{
    csv::Reader::from_reader(bytes)
        .records()
        .map(|record| Ok(record?.iter().map(str::to_owned).collect()))
        .collect()
}

/// A file that cannot be read as a table.
#[derive(Debug)]
pub struct UnreadableTable {
    pub cause: csv::Error,
}

/// One row of a table.
pub open spec fn row_text(fields: Seq<Seq<char>>) -> Seq<char> {
    "| "@ + joined(fields, " | "@) + " |\n"@
}

/// The rule below a header of `n` columns.
pub open spec fn rule_text(n: nat) -> Seq<char>
    decreases n,
{
    if n == 0 {
        "|"@
    } else {
        rule_text((n - 1) as nat) + "---|"@
    }
}

/// Rows below each other.
pub open spec fn rows_text(rows: Seq<Seq<Seq<char>>>) -> Seq<char>
    decreases rows.len(),
{
    if rows.len() == 0 {
        seq![]
    } else {
        rows_text(rows.drop_last()) + row_text(rows.last())
    }
}

/// A table: its header, the rule below it, and its rows in order.
pub open spec fn table_text(headers: Seq<Seq<char>>, records: Seq<Seq<Seq<char>>>) -> Seq<char> {
    row_text(headers) + rule_text(headers.len()) + "\n"@ + rows_text(records)
}

fn push_row(text: &mut String, fields: &Vec<String>)
    ensures
        final(text)@ == old(text)@ + row_text(views(fields@)),
{
    let ghost before = text@;
    let inner = join(fields, " | ");
    text.append("| ");
    text.append(inner.as_str());
    text.append(" |\n");
    assert(text@ =~= before + row_text(views(fields@)));
}

/// Show rows as a GitHub-flavoured markdown table.
pub fn markdown_table(headers: &Vec<String>, records: &Vec<Vec<String>>) -> (table: String)
    ensures
        table@ == table_text(views(headers@), row_views(records@)),
{
    let mut table = String::new();
    push_row(&mut table, headers);
    table.append("|");
    let ghost opening = row_text(views(headers@));
    let total: usize = headers.len();
    let mut i: usize = 0;
    assert(table@ =~= opening + rule_text(0));
    while i < total
        invariant
            i <= total,
            table@ == opening + rule_text(i as nat),
        decreases total - i,
    {
        let ghost before = table@;
        table.append("---|");
        assert(table@ =~= opening + (rule_text(i as nat) + "---|"@));
        i += 1;
    }
    table.append("\n");
    let ghost opening = table@;
    assert(views(headers@).len() == total);
    let mut k: usize = 0;
    assert(table@ =~= opening + rows_text(row_views(records@).take(0)));
    while k < records.len()
        invariant
            k <= records@.len(),
            table@ == opening + rows_text(row_views(records@).take(k as int)),
        decreases records@.len() - k,
    {
        let ghost shown = rows_text(row_views(records@).take(k as int));
        proof {
            let next = row_views(records@).take(k + 1);
            assert(next.drop_last() =~= row_views(records@).take(k as int));
            assert(next.last() == views(records@[k as int]@));
        }
        push_row(&mut table, &records[k]);
        assert(table@ =~= opening + (shown + row_text(views(records@[k as int]@))));
        k += 1;
    }
    assert(row_views(records@).take(k as int) =~= row_views(records@));
    table
}

/// Show the bytes of a CSV file as a markdown table. A file of which any row is malformed is
/// refused as a whole.
pub fn read_csv_as_markdown(bytes: &[u8]) -> (table: Result<String, UnreadableTable>)
    ensures
        (table is Ok) == (csv_headers(bytes@) is Some && csv_records(bytes@) is Some),
        table matches Ok(text) ==> text@ == table_text(
            csv_headers(bytes@)->Some_0,
            csv_records(bytes@)->Some_0,
        ),
{
    let headers = match read_headers(bytes) {
        Ok(headers) => headers,
        Err(cause) => {
            return Err(UnreadableTable { cause });
        },
    };
    let records = match read_records(bytes) {
        Ok(records) => records,
        Err(cause) => {
            return Err(UnreadableTable { cause });
        },
    };
    Ok(markdown_table(&headers, &records))
}

/// What is shown of a text are its own lines, all that were asked for and each under its own number:
/// with no end given, from the first one asked for to the last there is.
pub proof fn a_file_is_shown_line_by_line(
    content: &str,
    start_line: usize,
    end_line: i64,
    text: String,
)
    requires
        call_ensures(number_lines, (content, start_line, end_line), text),
    ensures
        ({
            let lines = lines_of(content@);
            &&& start_line <= 1 && end_line < 0 ==> text@ == numbered(lines, 0, lines.len() as int)
            &&& 1 <= start_line <= end_line <= lines.len() ==> text@ == numbered(
                lines,
                start_line - 1,
                end_line as int,
            )
            &&& 0 <= end_line < start_line || start_line > lines.len() ==> text@
                == Seq::<char>::empty()
        }),
{
    let lines = lines_of(content@);
    assert(numbered(lines, start_line - 1, start_line - 1) =~= Seq::<char>::empty());
}

/// A file is shown as a table exactly where its name ends in `.csv`.
pub proof fn a_csv_file_is_shown_as_a_table(
    args: &ReadFileArgs,
    exists: bool,
    reading: Result<Reading, String>,
)
    requires
        call_ensures(run, (args, exists), reading),
    ensures
        reading is Ok == exists,
        reading == Ok::<Reading, String>(Reading::Table) ==> path_extension(args.file_path@)
            == Some("csv"@),
        exists && path_extension(args.file_path@) == Some("csv"@) ==> reading == Ok::<
            Reading,
            String,
        >(Reading::Table),
{
}

} // verus!

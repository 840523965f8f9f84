//! Text as sequences of characters: the few string operations everything else is built from.

use vstd::prelude::*;

verus! {

/// `String::push` appends one character.
pub assume_specification[ String::push ](text: &mut String, c: char)
    ensures
        final(text)@ == old(text)@.push(c),
;

/// The characters of a string, in order.
pub fn chars_of(text: &str) -> (chars: Vec<char>)
    ensures
        chars@ == text@,
{
    let mut chars: Vec<char> = Vec::new();
    for c in it: text.chars()
        invariant
            chars@ == it.seq().take(it.index()),
            it.seq() == text@,
    {
        chars.push(c);
    }
    chars
}

/// A string holding the given characters.
pub fn text_of(chars: &[char]) -> (text: String)
    ensures
        text@ == chars@,
{
    let mut text = String::new();
    let mut i: usize = 0;
    while i < chars.len()
        invariant
            i <= chars@.len(),
            text@ == chars@.take(i as int),
        decreases chars@.len() - i,
    {
        text.push(chars[i]);
        i += 1;
    }
    assert(chars@.take(i as int) =~= chars@);
    text
}

/// Whether two strings hold the same characters.
pub fn same_text(left: &str, right: &str) -> (same: bool)
    ensures
        same == (left@ == right@),
{
    let a = chars_of(left);
    let b = chars_of(right);
    if a.len() != b.len() {
        return false;
    }
    let mut i: usize = 0;
    while i < a.len()
        invariant
            i <= a.len(),
            a.len() == b.len(),
            a@ == left@,
            b@ == right@,
            a@.take(i as int) =~= b@.take(i as int),
        decreases a.len() - i,
    {
        if a[i] != b[i] {
            return false;
        }
        assert(a@.take(i + 1) =~= a@.take(i as int).push(a@[i as int]));
        assert(b@.take(i + 1) =~= b@.take(i as int).push(b@[i as int]));
        i += 1;
    }
    assert(a@.take(i as int) =~= a@);
    assert(b@.take(i as int) =~= b@);
    true
}

/// Whether a character has the Unicode `White_Space` property.
pub open spec fn is_white(c: char) -> bool {
    let u = c as u32;
    ||| 0x9 <= u <= 0xD
    ||| u == 0x20
    ||| u == 0x85
    ||| u == 0xA0
    ||| u == 0x1680
    ||| 0x2000 <= u <= 0x200A
    ||| u == 0x2028
    ||| u == 0x2029
    ||| u == 0x202F
    ||| u == 0x205F
    ||| u == 0x3000
}

/// Whether every character is white space.
pub open spec fn blank(s: Seq<char>) -> bool {
    forall|i: int| 0 <= i < s.len() ==> is_white(#[trigger] s[i])
}

/// `s` without its leading white space.
pub open spec fn skip_white(s: Seq<char>) -> Seq<char>
    decreases s.len(),
{
    if s.len() > 0 && is_white(s[0]) {
        skip_white(s.drop_first())
    } else {
        s
    }
}

/// `s` without its trailing white space.
pub open spec fn cut_white(s: Seq<char>) -> Seq<char>
    decreases s.len(),
{
    if s.len() > 0 && is_white(s.last()) {
        cut_white(s.drop_last())
    } else {
        s
    }
}

/// `s` without the white space at either end.
pub open spec fn trimmed(s: Seq<char>) -> Seq<char> {
    cut_white(skip_white(s))
}

pub proof fn lemma_skip_white(s: Seq<char>, n: int)
    requires
        0 <= n <= s.len(),
        forall|k: int| 0 <= k < n ==> is_white(#[trigger] s[k]),
        n < s.len() ==> !is_white(s[n]),
    ensures
        skip_white(s) == s.skip(n),
    decreases n,
{
    if n == 0 {
        assert(s.skip(0) =~= s);
    } else {
        let rest = s.drop_first();
        assert forall|k: int| 0 <= k < n - 1 implies is_white(#[trigger] rest[k]) by {
            assert(rest[k] == s[k + 1]);
        }
        lemma_skip_white(rest, n - 1);
        assert(rest.skip(n - 1) =~= s.skip(n));
    }
}

pub proof fn lemma_cut_white(s: Seq<char>, n: int)
    requires
        0 <= n <= s.len(),
        forall|k: int| n <= k < s.len() ==> is_white(#[trigger] s[k]),
        n > 0 ==> !is_white(s[n - 1]),
    ensures
        cut_white(s) == s.take(n),
    decreases s.len() - n,
{
    if n == s.len() {
        assert(s.take(n) =~= s);
    } else {
        let rest = s.drop_last();
        lemma_cut_white(rest, n);
        assert(rest.take(n) =~= s.take(n));
    }
}

/// Trimming leaves nothing exactly of a blank text.
pub proof fn lemma_blank_iff_trimmed_empty(s: Seq<char>)
    ensures
        blank(s) == (trimmed(s).len() == 0),
    decreases s.len(),
{
    if s.len() > 0 && is_white(s[0]) {
        lemma_blank_iff_trimmed_empty(s.drop_first());
        if blank(s) {
            assert forall|k: int| 0 <= k < s.drop_first().len() implies is_white(
                #[trigger] s.drop_first()[k],
            ) by {
                assert(s.drop_first()[k] == s[k + 1]);
            }
        }
        if blank(s.drop_first()) {
            assert forall|k: int| 0 <= k < s.len() implies is_white(#[trigger] s[k]) by {
                if k > 0 {
                    assert(s.drop_first()[k - 1] == s[k]);
                }
            }
        }
    } else if s.len() > 0 {
        lemma_cut_white_keeps_first(s);
    }
}

proof fn lemma_cut_white_keeps_first(s: Seq<char>)
    requires
        s.len() > 0,
        !is_white(s[0]),
    ensures
        cut_white(s).len() > 0,
    decreases s.len(),
{
    if is_white(s.last()) {
        lemma_cut_white_keeps_first(s.drop_last());
    }
}

/// Whether a character is white space.
pub fn is_whitespace(c: char) -> (white: bool)
    ensures
        white == is_white(c),
{
    let u: u32 = c as u32;
    (0x9 <= u && u <= 0xD) || u == 0x20 || u == 0x85 || u == 0xA0 || u == 0x1680 || (0x2000 <= u && u
        <= 0x200A) || u == 0x2028 || u == 0x2029 || u == 0x202F || u == 0x205F || u == 0x3000
}

/// The text without the white space at either end.
pub fn trim(text: &str) -> (inner: &str)
    ensures
        inner@ == trimmed(text@),
{
    let chars = chars_of(text);
    let mut start: usize = 0;
    while start < chars.len() && is_whitespace(chars[start])
        invariant
            start <= chars.len(),
            chars@ == text@,
            forall|k: int| 0 <= k < start ==> is_white(#[trigger] text@[k]),
        decreases chars.len() - start,
    {
        start += 1;
    }
    let mut end: usize = chars.len();
    while end > start && is_whitespace(chars[end - 1])
        invariant
            start <= end <= chars.len(),
            chars@ == text@,
            forall|k: int| end <= k < chars.len() ==> is_white(#[trigger] text@[k]),
        decreases end,
    {
        end -= 1;
    }
    proof {
        lemma_skip_white(text@, start as int);
        lemma_cut_white(text@.skip(start as int), end - start);
        assert(text@.skip(start as int).take(end - start) =~= text@.subrange(
            start as int,
            end as int,
        ));
    }
    text.substring_char(start, end)
}

/// The text without its trailing white space.
pub fn trim_end(text: &str) -> (kept: &str)
    ensures
        kept@ == cut_white(text@),
{
    let chars = chars_of(text);
    let mut end: usize = chars.len();
    while end > 0 && is_whitespace(chars[end - 1])
        invariant
            end <= chars.len(),
            chars@ == text@,
            forall|k: int| end <= k < chars.len() ==> is_white(#[trigger] text@[k]),
        decreases end,
    {
        end -= 1;
    }
    proof {
        lemma_cut_white(text@, end as int);
        assert(text@.take(end as int) =~= text@.subrange(0, end as int));
    }
    text.substring_char(0, end)
}

/// Whether the text holds nothing but white space.
pub fn is_blank(text: &str) -> (is: bool)
    ensures
        is == blank(text@),
{
    proof {
        lemma_blank_iff_trimmed_empty(text@);
    }
    trim(text).is_empty()
}

/// A character with `A` to `Z` made lower case.
pub open spec fn lower(c: char) -> char {
    if 'A' <= c <= 'Z' {
        ((c as u32) + 32) as char
    } else {
        c
    }
}

/// A text with `A` to `Z` made lower case.
pub open spec fn lowered(s: Seq<char>) -> Seq<char> {
    s.map_values(|c: char| lower(c))
}

/// A character with `A` to `Z` made lower case.
pub fn lower_char(c: char) -> (low: char)
    ensures
        low == lower(c),
{
    if 'A' <= c && c <= 'Z' {
        ((c as u8) + 32) as char
    } else {
        c
    }
}

/// The text with `A` to `Z` made lower case.
pub fn lowercase(text: &str) -> (low: String)
    ensures
        low@ == lowered(text@),
{
    let chars = chars_of(text);
    let mut low = String::new();
    let mut i: usize = 0;
    while i < chars.len()
        invariant
            i <= chars.len(),
            chars@ == text@,
            low@ == lowered(text@.take(i as int)),
        decreases chars.len() - i,
    {
        low.push(lower_char(chars[i]));
        assert(lowered(text@.take(i + 1)) =~= lowered(text@.take(i as int)).push(
            lower(text@[i as int]),
        ));
        i += 1;
    }
    assert(text@.take(i as int) =~= text@);
    low
}

/// Whether `pattern` stands in `s` at position `at`.
pub open spec fn occurs_at(s: Seq<char>, pattern: Seq<char>, at: int) -> bool {
    &&& 0 <= at
    &&& at + pattern.len() <= s.len()
    &&& s.subrange(at, at + pattern.len()) == pattern
}

/// Whether `pattern` stands anywhere in `s`.
pub open spec fn occurs_in(s: Seq<char>, pattern: Seq<char>) -> bool {
    exists|at: int| occurs_at(s, pattern, at)
}

/// Whether `pattern` stands in `text` at position `at`.
pub fn stands_at(text: &Vec<char>, pattern: &Vec<char>, at: usize) -> (stands: bool)
    ensures
        stands == occurs_at(text@, pattern@, at as int),
{
    if at > text.len() || pattern.len() > text.len() - at {
        return false;
    }
    let mut i: usize = 0;
    while i < pattern.len()
        invariant
            i <= pattern.len(),
            at + pattern.len() <= text.len(),
            forall|k: int| 0 <= k < i ==> text@[at + k] == pattern@[k],
        decreases pattern.len() - i,
    {
        if text[at + i] != pattern[i] {
            assert(text@.subrange(at as int, at + pattern@.len())[i as int] != pattern@[i as int]);
            return false;
        }
        i += 1;
    }
    assert(text@.subrange(at as int, at + pattern@.len()) =~= pattern@);
    true
}

/// The first position at or after `from` where `pattern` stands in `text`.
pub fn find(text: &Vec<char>, pattern: &Vec<char>, from: usize) -> (found: Option<usize>)
    ensures
        match found {
            Some(at) => from <= at && occurs_at(text@, pattern@, at as int) && forall|k: int|
                from <= k < at ==> !#[trigger] occurs_at(text@, pattern@, k),
            None => forall|k: int| from <= k ==> !#[trigger] occurs_at(text@, pattern@, k),
        },
{
    let mut at: usize = from;
    while at <= text.len()
        invariant
            from <= at,
            from <= text.len() ==> at <= text.len() + 1,
            forall|k: int| from <= k < at ==> !#[trigger] occurs_at(text@, pattern@, k),
        decreases text.len() + 1 - at,
    {
        if stands_at(text, pattern, at) {
            return Some(at);
        }
        if at == text.len() {
            return None;
        }
        at += 1;
    }
    None
}

/// The first position at or after `from` where `pattern` stands in `s`.
pub open spec fn first_at(s: Seq<char>, pattern: Seq<char>, from: int) -> Option<int>
    decreases s.len() + 1 - from,
{
    if from > s.len() {
        None
    } else if occurs_at(s, pattern, from) {
        Some(from)
    } else {
        first_at(s, pattern, from + 1)
    }
}

/// Where a pattern stands first is at or after the start of the search.
pub proof fn lemma_first_at(s: Seq<char>, pattern: Seq<char>, from: int)
    requires
        0 <= from,
    ensures
        match first_at(s, pattern, from) {
            Some(at) => from <= at && occurs_at(s, pattern, at) && forall|k: int|
                from <= k < at ==> !#[trigger] occurs_at(s, pattern, k),
            None => forall|k: int| from <= k ==> !#[trigger] occurs_at(s, pattern, k),
        },
    decreases s.len() + 1 - from,
{
    if from <= s.len() && !occurs_at(s, pattern, from) {
        lemma_first_at(s, pattern, from + 1);
    }
}

/// The first position at or after `from` where `pattern` stands in `text`.
pub fn find_first(text: &Vec<char>, pattern: &Vec<char>, from: usize) -> (found: Option<usize>)
    ensures
        match found {
            Some(at) => first_at(text@, pattern@, from as int) == Some(at as int) && from <= at && at
                + pattern@.len() <= text@.len(),
            None => first_at(text@, pattern@, from as int) is None,
        },
{
    proof {
        lemma_first_at(text@, pattern@, from as int);
    }
    find(text, pattern, from)
}

/// Whether `pattern` stands anywhere in `text`.
pub fn contains(text: &str, pattern: &str) -> (is: bool)
    ensures
        is == occurs_in(text@, pattern@),
{
    let t = chars_of(text);
    let p = chars_of(pattern);
    match find(&t, &p, 0) {
        Some(at) => {
            assert(occurs_at(text@, pattern@, at as int));
            true
        },
        None => {
            assert(forall|k: int| 0 <= k ==> !#[trigger] occurs_at(t@, p@, k));
            false
        },
    }
}

/// `s` cut to its first `n` characters.
pub open spec fn cut(s: Seq<char>, n: nat) -> Seq<char> {
    if s.len() <= n {
        s
    } else {
        s.take(n as int)
    }
}

/// Whether a character may stand in a name that a chat endpoint accepts.
pub open spec fn name_char(c: char) -> bool {
    ('a' <= c <= 'z') || ('A' <= c <= 'Z') || ('0' <= c <= '9') || c == '_' || c == '-'
}

/// A character as it may stand in such a name.
pub open spec fn cleaned(c: char) -> char {
    if name_char(c) {
        c
    } else {
        '_'
    }
}

/// A text as it may stand in such a name: every other character is replaced.
pub open spec fn cleaned_text(s: Seq<char>) -> Seq<char> {
    s.map_values(|c: char| cleaned(c))
}

/// A text as it may stand in a name that a chat endpoint accepts.
pub fn clean(text: &str) -> (name: String)
    ensures
        name@ == cleaned_text(text@),
{
    let chars = chars_of(text);
    let mut name = String::new();
    let mut i: usize = 0;
    while i < chars.len()
        invariant
            i <= chars@.len(),
            name@ =~= cleaned_text(chars@).take(i as int),
        decreases chars@.len() - i,
    {
        let c = chars[i];
        let kept = (c >= 'a' && c <= 'z') || (c >= 'A' && c <= 'Z') || (c >= '0' && c <= '9') || c
            == '_' || c == '-';
        name.push(if kept {
            c
        } else {
            '_'
        });
        i += 1;
    }
    assert(cleaned_text(chars@).take(chars@.len() as int) =~= cleaned_text(chars@));
    name
}

/// The parts in order, with `separator` between each two.
pub open spec fn joined(parts: Seq<Seq<char>>, separator: Seq<char>) -> Seq<char>
    decreases parts.len(),
{
    if parts.len() == 0 {
        seq![]
    } else if parts.len() == 1 {
        parts[0]
    } else {
        joined(parts.drop_last(), separator) + separator + parts.last()
    }
}

/// The contents of each string.
pub open spec fn views(texts: Seq<String>) -> Seq<Seq<char>> {
    texts.map_values(|t: String| t@)
}

/// The contents of a string that may be missing.
pub open spec fn opt_view(text: Option<String>) -> Option<Seq<char>> {
    match text {
        Some(t) => Some(t@),
        None => None,
    }
}

/// The contents of a string slice that may be missing.
pub open spec fn opt_str_view(text: Option<&str>) -> Option<Seq<char>> {
    match text {
        Some(t) => Some(t@),
        None => None,
    }
}

/// The parts in order, with `separator` between each two.
pub fn join(parts: &Vec<String>, separator: &str) -> (text: String)
    ensures
        text@ == joined(views(parts@), separator@),
{
    let mut text = String::new();
    let mut i: usize = 0;
    while i < parts.len()
        invariant
            i <= parts.len(),
            text@ == joined(views(parts@.take(i as int)), separator@),
        decreases parts.len() - i,
    {
        if i > 0 {
            text.append(separator);
        }
        text.append(parts[i].as_str());
        proof {
            let next = views(parts@.take(i + 1));
            assert(next.drop_last() =~= views(parts@.take(i as int)));
            assert(next.last() == parts@[i as int]@);
        }
        i += 1;
    }
    assert(parts@.take(i as int) =~= parts@);
    text
}

/// Whether `text` is among `texts`.
pub fn holds(texts: &Vec<String>, text: &str) -> (is: bool)
    ensures
        is == views(texts@).contains(text@),
{
    let mut i: usize = 0;
    while i < texts.len()
        invariant
            i <= texts@.len(),
            forall|k: int| 0 <= k < i ==> #[trigger] views(texts@)[k] != text@,
        decreases texts@.len() - i,
    {
        if same_text(texts[i].as_str(), text) {
            assert(views(texts@)[i as int] == text@);
            return true;
        }
        i += 1;
    }
    false
}

/// The character of a decimal digit.
pub open spec fn digit(d: nat) -> char {
    (('0' as u32) + d) as char
}

/// A number in decimal.
pub open spec fn decimal(n: nat) -> Seq<char>
    decreases n,
{
    if n < 10 {
        seq![digit(n)]
    } else {
        decimal(n / 10).push(digit(n % 10))
    }
}

/// A number in decimal.
pub fn decimal_text(n: u64) -> (text: String)
    ensures
        text@ == decimal(n as nat),
    decreases n,
{
    let last: u8 = 48 + (n % 10) as u8;
    let mut text = if n < 10 {
        String::new()
    } else {
        decimal_text(n / 10)
    };
    text.push(last as char);
    text
}

/// Every character of a decimal number is one of `0` to `9`.
pub proof fn lemma_decimal_digits(n: nat)
    ensures
        decimal(n).len() > 0,
        forall|i: int| 0 <= i < decimal(n).len() ==> '0' <= #[trigger] decimal(n)[i] <= '9',
    decreases n,
{
    if n >= 10 {
        lemma_decimal_digits(n / 10);
    }
}

/// Two numbers written alike are one number.
pub proof fn lemma_decimal_injective(m: nat, n: nat)
    requires
        decimal(m) == decimal(n),
    ensures
        m == n,
    decreases m,
{
    lemma_decimal_digits(m / 10);
    lemma_decimal_digits(n / 10);
    assert(decimal(m).len() == if m < 10 { 1 } else { decimal(m / 10).len() + 1 });
    assert(decimal(n).len() == if n < 10 { 1 } else { decimal(n / 10).len() + 1 });
    if m < 10 {
        assert(n < 10);
        assert(decimal(m)[0] == digit(m));
        assert(decimal(n)[0] == digit(n));
    } else {
        assert(n >= 10);
        assert(decimal(m).last() == digit(m % 10));
        assert(decimal(n).last() == digit(n % 10));
        assert(decimal(m).drop_last() =~= decimal(m / 10));
        assert(decimal(n).drop_last() =~= decimal(n / 10));
        lemma_decimal_injective(m / 10, n / 10);
    }
}

/// A number, a colon and a text can be told apart again.
pub proof fn lemma_numbered_injective(m: nat, n: nat, s: Seq<char>, t: Seq<char>)
    requires
        decimal(m) + seq![':'] + s == decimal(n) + seq![':'] + t,
    ensures
        m == n,
        s == t,
{
    lemma_decimal_digits(m);
    lemma_decimal_digits(n);
    let left = decimal(m) + seq![':'] + s;
    let right = decimal(n) + seq![':'] + t;
    let a = decimal(m).len() as int;
    let b = decimal(n).len() as int;
    assert(left[a] == ':');
    assert(right[b] == ':');
    if a < b {
        assert(right[a] == decimal(n)[a]);
    } else if b < a {
        assert(left[b] == decimal(m)[b]);
    }
    assert(left.take(a) =~= decimal(m));
    assert(right.take(a) =~= decimal(n));
    lemma_decimal_injective(m, n);
    assert(left.skip(a + 1) =~= s);
    assert(right.skip(a + 1) =~= t);
}

/// Whether `a` stands before `b` in the order of their characters' code points.
pub open spec fn precedes(a: Seq<char>, b: Seq<char>) -> bool
    decreases a.len(),
{
    if b.len() == 0 {
        false
    } else if a.len() == 0 {
        true
    } else if a[0] == b[0] {
        precedes(a.drop_first(), b.drop_first())
    } else {
        a[0] < b[0]
    }
}

/// No text stands before itself.
pub proof fn lemma_precedes_irreflexive(a: Seq<char>)
    ensures
        !precedes(a, a),
    decreases a.len(),
{
    if a.len() > 0 {
        lemma_precedes_irreflexive(a.drop_first());
    }
}

/// Of two texts one stands before the other, or they are the same.
pub proof fn lemma_precedes_total(a: Seq<char>, b: Seq<char>)
    ensures
        a == b || precedes(a, b) || precedes(b, a),
        !(precedes(a, b) && precedes(b, a)),
    decreases a.len(),
{
    if a.len() == 0 && b.len() == 0 {
        assert(a =~= b);
    }
    if a.len() > 0 && b.len() > 0 && a[0] == b[0] {
        lemma_precedes_total(a.drop_first(), b.drop_first());
        if a.drop_first() == b.drop_first() {
            assert(a =~= seq![a[0]] + a.drop_first());
            assert(b =~= seq![b[0]] + b.drop_first());
        }
    }
}

/// What stands before a text stands before whatever that text stands before.
pub proof fn lemma_precedes_transitive(a: Seq<char>, b: Seq<char>, c: Seq<char>)
    requires
        precedes(a, b),
        precedes(b, c),
    ensures
        precedes(a, c),
    decreases a.len(),
{
    if a.len() > 0 && a[0] == b[0] && b[0] == c[0] {
        lemma_precedes_transitive(a.drop_first(), b.drop_first(), c.drop_first());
    }
}

/// Whether `left` stands before `right` in the order of their characters' code points.
pub fn stands_before(left: &str, right: &str) -> (before: bool)
    ensures
        before == precedes(left@, right@),
{
    let a = chars_of(left);
    let b = chars_of(right);
    let mut i: usize = 0;
    assert(a@.skip(0) =~= a@);
    assert(b@.skip(0) =~= b@);
    while i < a.len() && i < b.len()
        invariant
            i <= a.len(),
            i <= b.len(),
            a@ == left@,
            b@ == right@,
            precedes(a@, b@) == precedes(a@.skip(i as int), b@.skip(i as int)),
        decreases a.len() - i,
    {
        if a[i] != b[i] {
            return a[i] < b[i];
        }
        assert(a@.skip(i as int).drop_first() =~= a@.skip(i + 1));
        assert(b@.skip(i as int).drop_first() =~= b@.skip(i + 1));
        i += 1;
    }
    i == a.len() && i < b.len()
}

/// What can be seen is not white space: no character from `!` to `~` is, while a blank, a tab and
/// the ends of lines are.
pub proof fn what_is_seen_is_not_white(c: char)
    ensures
        '!' <= c <= '~' ==> !is_white(c),
        is_white(' ') && is_white('\t') && is_white('\n') && is_white('\r'),
{
}

proof fn lemma_skipped(s: Seq<char>)
    ensures
        ({
            let start = s.len() - skip_white(s).len();
            &&& 0 <= start
            &&& skip_white(s) == s.skip(start)
            &&& forall|k: int| 0 <= k < start ==> is_white(#[trigger] s[k])
            &&& start < s.len() ==> !is_white(s[start])
        }),
    decreases s.len(),
{
    if s.len() > 0 && is_white(s[0]) {
        let rest = s.drop_first();
        lemma_skipped(rest);
        let start = s.len() - skip_white(s).len();
        assert(rest.skip(start - 1) =~= s.skip(start));
        assert forall|k: int| 0 <= k < start implies is_white(#[trigger] s[k]) by {
            if k > 0 {
                assert(rest[k - 1] == s[k]);
            }
        }
    } else {
        assert(s.skip(0) =~= s);
    }
}

proof fn lemma_cut_back(s: Seq<char>)
    ensures
        ({
            let end = cut_white(s).len() as int;
            &&& end <= s.len()
            &&& cut_white(s) == s.take(end)
            &&& forall|k: int| end <= k < s.len() ==> is_white(#[trigger] s[k])
            &&& end > 0 ==> !is_white(s[end - 1])
        }),
    decreases s.len(),
{
    if s.len() > 0 && is_white(s.last()) {
        let rest = s.drop_last();
        lemma_cut_back(rest);
        let end = cut_white(s).len() as int;
        assert(rest.take(end) =~= s.take(end));
        assert forall|k: int| end <= k < s.len() implies is_white(#[trigger] s[k]) by {
            if k < rest.len() {
                assert(rest[k] == s[k]);
            }
        }
    } else {
        assert(s.take(s.len() as int) =~= s);
    }
}

/// Trimming takes away white space at the ends and nothing else: what is left is one stretch of
/// the text that neither starts nor ends in white space, and all that stood around it is white.
pub proof fn trimming_takes_only_white_ends(s: Seq<char>)
    ensures
        exists|start: int, end: int|
            {
                &&& 0 <= start <= end <= s.len()
                &&& trimmed(s) == #[trigger] s.subrange(start, end)
                &&& forall|k: int| 0 <= k < start || end <= k < s.len() ==> is_white(#[trigger] s[k])
                &&& start < end ==> !is_white(s[start]) && !is_white(s[end - 1])
            },
        trimmed(trimmed(s)) == trimmed(s),
{
    lemma_skipped(s);
    let front = skip_white(s);
    lemma_cut_back(front);
    let start = s.len() - front.len();
    let inner = trimmed(s);
    let end = start + inner.len();
    assert(inner =~= s.subrange(start, end));
    assert forall|k: int| 0 <= k < start || end <= k < s.len() implies is_white(#[trigger] s[k]) by {
        if end <= k {
            assert(front[k - start] == s[k]);
        }
    }
    if start < end {
        assert(front[0] == s[start]);
        assert(front[inner.len() - 1] == s[end - 1]);
        assert(inner[0] == s[start]);
    }
    assert(skip_white(inner) == inner);
    assert(cut_white(inner) == inner) by {
        if inner.len() > 0 {
            assert(inner.last() == front[inner.len() - 1]);
        }
    }
}

/// Lower case keeps a text's length and every character but the ASCII capitals, each of which
/// becomes the small letter that stands 32 places behind it.
pub proof fn lower_case_changes_only_capitals(s: Seq<char>)
    ensures
        lowered(s).len() == s.len(),
        forall|i: int|
            0 <= i < s.len() ==> if 'A' <= s[i] <= 'Z' {
                'a' <= (#[trigger] lowered(s)[i]) <= 'z' && lowered(s)[i] as int == s[i] as int + 32
            } else {
                lowered(s)[i] == s[i]
            },
        lowered(lowered(s)) == lowered(s),
{
    assert(lowered(lowered(s)) =~= lowered(s));
}

/// Joining goes part by part: one part is joined to itself, and two runs of parts are joined by
/// one separator between them.
pub proof fn joining_puts_one_separator_between_parts(
    left: Seq<Seq<char>>,
    right: Seq<Seq<char>>,
    part: Seq<char>,
    separator: Seq<char>,
)
    ensures
        joined(seq![part], separator) == part,
        joined(left + right, separator) == if left.len() == 0 {
            joined(right, separator)
        } else if right.len() == 0 {
            joined(left, separator)
        } else {
            joined(left, separator) + separator + joined(right, separator)
        },
    decreases right.len(),
{
    reveal_with_fuel(joined, 2);
    assert(joined(seq![part], separator) =~= part);
    if right.len() == 0 {
        assert(left + right =~= left);
    } else if left.len() == 0 {
        assert(left + right =~= right);
    } else {
        let front = right.drop_last();
        assert((left + right).drop_last() =~= left + front);
        assert((left + right).last() == right.last());
        joining_puts_one_separator_between_parts(left, front, part, separator);
        if front.len() == 0 {
            assert(front =~= seq![]);
            assert(joined(right, separator) =~= right.last());
        }
        assert(joined(left + right, separator) =~= joined(left, separator) + separator + joined(
            right,
            separator,
        ));
    }
}

/// The number that a run of decimal digits stands for.
pub open spec fn number_written(digits: Seq<char>) -> int
    decreases digits.len(),
{
    if digits.len() == 0 {
        0
    } else {
        10 * number_written(digits.drop_last()) + (digits.last() as int - '0' as int)
    }
}

/// A number in decimal reads back as itself, in digits alone and without a zero in front.
pub proof fn decimals_read_back(n: nat)
    ensures
        number_written(decimal(n)) == n,
        forall|i: int| 0 <= i < decimal(n).len() ==> '0' <= #[trigger] decimal(n)[i] <= '9',
        decimal(n).len() > 1 ==> decimal(n)[0] != '0',
        decimal(n).len() > 0,
    decreases n,
{
    lemma_decimal_digits(n);
    if n < 10 {
        reveal_with_fuel(number_written, 2);
        assert(decimal(n).drop_last() =~= seq![]);
    } else {
        let front = decimal(n / 10);
        decimals_read_back(n / 10);
        assert(decimal(n).drop_last() =~= front);
        assert(decimal(n)[0] == front[0]);
        if front.len() == 1 && n / 10 < 10 {
            assert(front[0] == digit(n / 10));
        }
        if front.len() == 1 {
            assert(n / 10 < 10) by {
                if n / 10 >= 10 {
                    lemma_decimal_digits(n / 10 / 10);
                }
            }
        }
    }
}

/// What is trimmed stays so in lower case.
pub proof fn lower_case_keeps_a_text_trimmed(s: Seq<char>)
    ensures
        trimmed(lowered(trimmed(s))) == lowered(trimmed(s)),
        lowered(trimmed(lowered(trimmed(s)))) == lowered(trimmed(s)),
{
    let inner = trimmed(s);
    let low = lowered(inner);
    lemma_skipped(s);
    lemma_cut_back(skip_white(s));
    if inner.len() > 0 {
        assert(inner[0] == skip_white(s)[0]);
        assert(inner[inner.len() - 1] == skip_white(s)[inner.len() - 1]);
        lemma_lower_keeps_white(inner[0]);
        lemma_lower_keeps_white(inner[inner.len() - 1]);
        assert(low[0] == lower(inner[0]));
        assert(low[low.len() - 1] == lower(inner[inner.len() - 1]));
        lemma_skip_white(low, 0);
        assert(low.skip(0) =~= low);
        lemma_cut_white(low, low.len() as int);
        assert(low.take(low.len() as int) =~= low);
    } else {
        assert(low =~= seq![]);
        assert(skip_white(low) == low);
        assert(cut_white(low) == low);
    }
    lower_case_changes_only_capitals(inner);
}

proof fn lemma_lower_keeps_white(c: char)
    ensures
        is_white(lower(c)) == is_white(c),
{
}

/// Two texts are ordered by the first place where they differ, by the characters' code points; a
/// text that ends there comes first.
pub proof fn texts_are_ordered_at_their_first_difference(a: Seq<char>, b: Seq<char>, at: int)
    requires
        0 <= at <= a.len(),
        at <= b.len(),
        a.take(at) == b.take(at),
        at < a.len() && at < b.len() ==> a[at] != b[at],
    ensures
        at < b.len() && at < a.len() ==> precedes(a, b) == ((a[at] as int) < (b[at] as int)),
        at == a.len() ==> precedes(a, b) == (at < b.len()),
        at == b.len() ==> !precedes(a, b),
    decreases at,
{
    if at > 0 {
        assert(a[0] == a.take(at)[0]);
        assert(b[0] == b.take(at)[0]);
        let rest = a.drop_first();
        let other = b.drop_first();
        assert(rest.take(at - 1) =~= a.take(at).drop_first());
        assert(other.take(at - 1) =~= b.take(at).drop_first());
        texts_are_ordered_at_their_first_difference(rest, other, at - 1);
    }
}

/// Cutting white space off the end takes nothing else away.
pub proof fn cutting_takes_only_white_space(s: Seq<char>)
    ensures
        cut_white(s).is_prefix_of(s),
        blank(s.skip(cut_white(s).len() as int)),
        cut_white(s).len() > 0 ==> !is_white(cut_white(s).last()),
{
    lemma_cut_back(s);
    let end = cut_white(s).len() as int;
    assert forall|i: int| 0 <= i < s.skip(end).len() implies is_white(#[trigger] s.skip(end)[i]) by {
        assert(s.skip(end)[i] == s[end + i]);
    }
}

/// What is left of a trimmed text neither starts nor ends in white space.
pub proof fn lemma_trimmed_is_solid(s: Seq<char>)
    ensures
        trimmed(s).len() > 0 ==> !is_white(trimmed(s)[0]) && !is_white(
            trimmed(s)[trimmed(s).len() - 1],
        ),
{
    lemma_skipped(s);
    lemma_cut_back(skip_white(s));
    if trimmed(s).len() > 0 {
        assert(trimmed(s)[0] == skip_white(s)[0]);
        assert(trimmed(s)[trimmed(s).len() - 1] == skip_white(s)[trimmed(s).len() - 1]);
    }
}

/// What is written of a number reads back as it.
pub proof fn a_number_is_written_as_it_reads(n: u64, text: String)
    requires
        call_ensures(decimal_text, (n,), text),
    ensures
        number_written(text@) == n,
        text@.len() > 0,
        forall|i: int| 0 <= i < text@.len() ==> '0' <= #[trigger] text@[i] <= '9',
{
    decimals_read_back(n as nat);
}

/// What is left of a text once it is trimmed is one stretch of it, with nothing but white space
/// around.
pub proof fn only_white_ends_are_trimmed(text: &str, inner: &str)
    requires
        call_ensures(trim, (text,), inner),
    ensures
        exists|start: int, end: int|
            {
                &&& 0 <= start <= end <= text@.len()
                &&& inner@ == #[trigger] text@.subrange(start, end)
                &&& forall|k: int|
                    0 <= k < start || end <= k < text@.len() ==> is_white(#[trigger] text@[k])
                &&& start < end ==> !is_white(text@[start]) && !is_white(text@[end - 1])
            },
{
    trimming_takes_only_white_ends(text@);
}

} // verus!

//! Small utilities shared across modules.

use vstd::prelude::*;

use crate::text::cut;

verus! {

/// The first `max_chars` characters of a text: never part of one, and all of a text that is
/// not longer.
pub fn truncate_chars(content: &str, max_chars: usize) -> (kept: &str)
    ensures
        kept@ == cut(content@, max_chars as nat),
{
    if content.unicode_len() <= max_chars {
        content
    } else {
        assert(content@.subrange(0, max_chars as int) =~= content@.take(max_chars as int));
        content.substring_char(0, max_chars)
    }
}

/// A truncated text is a prefix of the whole one and no longer than asked for; truncating it
/// again changes nothing.
pub proof fn truncation_keeps_a_prefix(content: Seq<char>, max_chars: nat)
    ensures
        cut(content, max_chars).is_prefix_of(content),
        cut(content, max_chars).len() <= max_chars,
        content.len() <= max_chars ==> cut(content, max_chars) == content,
        cut(cut(content, max_chars), max_chars) == cut(content, max_chars),
{
}

/// What is kept of a text is its opening, as much of it as was asked for or as there is.
pub proof fn as_much_is_kept_as_asked_for(content: &str, max_chars: usize, kept: &str)
    requires
        call_ensures(truncate_chars, (content, max_chars), kept),
    ensures
        kept@.is_prefix_of(content@),
        kept@.len() == if content@.len() <= max_chars {
            content@.len()
        } else {
            max_chars as nat
        },
{
}

} // verus!

//! Removal of terminal colour codes from a text.

use vstd::prelude::*;

verus! {

/// Whether the end of `text` lies inside a colour code: one begins with the
/// escape character and ends with the next `m`.
pub open spec fn in_escape(text: Seq<char>) -> bool
    decreases text.len(),
{
    if text.len() == 0 {
        false
    } else if text.last() == '\x1b' {
        true
    } else {
        in_escape(text.drop_last()) && text.last() != 'm'
    }
}

/// `text` without its colour codes: a character stays if it is no escape
/// character and what precedes it does not end inside a code.
pub open spec fn stripped(text: Seq<char>) -> Seq<char>
    decreases text.len(),
{
    if text.len() == 0 {
        Seq::empty()
    } else if text.last() == '\x1b' || in_escape(text.drop_last()) {
        stripped(text.drop_last())
    } else {
        stripped(text.drop_last()).push(text.last())
    }
}

/// What is left holds no escape character, and a text that holds none is
/// left as it is: removing the codes twice is removing them once.
pub proof fn lemma_stripped_is_plain(text: Seq<char>)
    ensures
        !stripped(text).contains('\x1b'),
        !text.contains('\x1b') ==> !in_escape(text) && stripped(text) == text,
    decreases text.len(),
{
    if text.len() > 0 {
        let before = text.drop_last();
        lemma_stripped_is_plain(before);
        assert(!text.contains('\x1b') ==> !before.contains('\x1b'));
    }
}

/// Removes the colour codes from `text`.
pub fn strip_ansi_codes(text: &str) -> (out: String)
    ensures
        out@ == stripped(text@),
{
    let mut out = String::new();
    let mut escaped = false;
    for c in it: text.chars()
        invariant
            it.seq() == text@,
            escaped == in_escape(text@.take(it.index() as int)),
            out@ == stripped(text@.take(it.index() as int)),
    {
        let ghost read = text@.take(it.index() + 1);
        assert(read.drop_last() =~= text@.take(it.index() as int));
        if c == '\x1b' {
            escaped = true;
        } else if escaped {
            if c == 'm' {
                escaped = false;
            }
        } else {
            out.push(c);
        }
    }
    assert(text@.take(text@.len() as int) =~= text@);
    out
}

} // verus!

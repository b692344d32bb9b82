//! Display widths of characters and strings, in terminal columns, as the
//! `unicode-width` crate computes them.

use vstd::prelude::*;
use unicode_width::{UnicodeWidthChar, UnicodeWidthStr};

verus! {

/// The width of one character on its own, `None` for a control character.
pub uninterp spec fn char_columns(c: char) -> Option<usize>;

/// The width of a whole string. It is not the sum of the widths of its
/// characters: some sequences are narrower than their parts, and a control
/// character counts inside a string.
pub uninterp spec fn text_columns(text: Seq<char>) -> usize;

/// `UnicodeWidthChar::width`. The crate looks the character up in its tables
/// and nothing else, so the result is a function of the character; the
/// contract gives it its name and claims no more.
#[verifier::external_body]
pub(crate) fn char_width(c: char) -> (width: Option<usize>)
    ensures
        width == char_columns(c),
{
    UnicodeWidthChar::width(c)
}

/// `UnicodeWidthStr::width`. The crate folds over the characters of the
/// string with its tables and nothing else, so the result is a function of the
/// characters; the contract gives it its name and claims no more.
#[verifier::external_body]
pub(crate) fn text_width(text: &str) -> (width: usize)
    ensures
        width == text_columns(text@),
{
    UnicodeWidthStr::width(text)
}

/// The columns that a character of width `found` takes when characters are
/// laid out one by one: its width, and none where it has none.
pub open spec fn cell_of(found: Option<usize>) -> usize {
    match found {
        Some(width) => width,
        None => 0,
    }
}

/// The columns that a character takes when characters are laid out one by
/// one: its own width, and none for a control character.
pub open spec fn cell_columns(c: char) -> usize {
    cell_of(char_columns(c))
}

/// The columns that a character of width `found` takes when characters are
/// laid out one by one.
pub fn cell_width(found: Option<usize>) -> (width: usize)
    ensures
        width == cell_of(found),
{
    match found {
        Some(width) => width,
        None => 0,
    }
}

/// `cell_columns` of each character of `text`.
pub open spec fn cell_widths(text: Seq<char>) -> Seq<usize> {
    text.map_values(|c: char| cell_columns(c))
}

/// The width of each character of `text`, in order.
pub fn column_widths(text: &str) -> (widths: Vec<usize>)
    ensures
        widths@ == cell_widths(text@),
{
    let mut widths: Vec<usize> = Vec::new();
    for c in it: text.chars()
        invariant
            it.seq() == text@,
            widths@ == cell_widths(text@.take(it.index() as int)),
    {
        widths.push(cell_width(char_width(c)));
    }
    widths
}

} // verus!

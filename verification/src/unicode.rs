//! Trusted boundary to the Unicode character classification crates.
//!
//! Each classification the lexer relies on (display width, whitespace,
//! identifier characters, bracket pairing) is a pure function of the
//! character alone.  Those functions are table-driven, so each result is
//! given an uninterpreted name; the wrappers below tie the executable
//! calls to those names.

use vstd::prelude::*;
use unicode_brackets::UnicodeBrackets;
use unicode_width::UnicodeWidthChar;
use unicode_xid::UnicodeXID;

verus! {

/// Display width, in terminal columns, of a character (0 for control and
/// zero-width characters).
pub uninterp spec fn char_width(c: char) -> usize;

/// Whether a character has the Unicode `White_Space` property.
pub uninterp spec fn is_ws_char(c: char) -> bool;

/// Whether a character has the Unicode `XID_Start` property.
pub uninterp spec fn is_id_start(c: char) -> bool;

/// Whether a character has the Unicode `XID_Continue` property.
pub uninterp spec fn is_id_continue(c: char) -> bool;

/// Whether a character is an opening bracket (Unicode bidi brackets).
pub uninterp spec fn is_open_bracket_char(c: char) -> bool;

/// Whether a character is a closing bracket (Unicode bidi brackets).
pub uninterp spec fn is_close_bracket_char(c: char) -> bool;

/// The closing bracket paired with an opening bracket (the character
/// itself when it is not an opening bracket).
pub uninterp spec fn matching_close_bracket(c: char) -> char;

/// Relies on unicode_width::UnicodeWidthChar::width: the displayed width
/// of a character, `None` for control characters.  The width tables of
/// that crate store widths of at most 3 columns, which bounds the result.
#[verifier::external_body]
pub(crate) fn exec_char_width(c: char) -> (w: usize)
    ensures
        w == char_width(c),
        w <= 3,
{
    c.width().unwrap_or(0)
}

/// Relies on char::is_whitespace: the Unicode `White_Space` property.
#[verifier::external_body]
pub(crate) fn exec_is_ws(c: char) -> (r: bool)
    ensures
        r == is_ws_char(c),
{
    c.is_whitespace()
}

/// Relies on unicode_xid::UnicodeXID::is_xid_start.
#[verifier::external_body]
pub(crate) fn exec_is_id_start(c: char) -> (r: bool)
    ensures
        r == is_id_start(c),
{
    UnicodeXID::is_xid_start(c)
}

/// Relies on unicode_xid::UnicodeXID::is_xid_continue.
#[verifier::external_body]
pub(crate) fn exec_is_id_continue(c: char) -> (r: bool)
    ensures
        r == is_id_continue(c),
{
    UnicodeXID::is_xid_continue(c)
}

/// Relies on unicode_brackets::UnicodeBrackets::is_open_bracket.
#[verifier::external_body]
pub(crate) fn exec_is_open_bracket(c: char) -> (r: bool)
    ensures
        r == is_open_bracket_char(c),
{
    c.is_open_bracket()
}

/// Relies on unicode_brackets::UnicodeBrackets::is_close_bracket.
#[verifier::external_body]
pub(crate) fn exec_is_close_bracket(c: char) -> (r: bool)
    ensures
        r == is_close_bracket_char(c),
{
    c.is_close_bracket()
}

/// Relies on unicode_brackets::UnicodeBrackets::to_close_bracket.
#[verifier::external_body]
pub(crate) fn exec_to_close_bracket(c: char) -> (r: char)
    ensures
        r == matching_close_bracket(c),
{
    c.to_close_bracket()
}

} // verus!

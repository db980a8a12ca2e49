//! Trusted interface to the `ropey` crate, which stores the buffer's
//! characters. A rope is opaque to the verifier; `rope_chars` names the
//! sequence of characters it holds, and each wrapper states what the
//! corresponding `ropey` operation does to that sequence, as its source
//! and documentation show.
//!
//! The crate is built without its extended line-break features, so the only
//! line break it recognizes is the line feed; `len_lines` is then one more
//! than the number of line feeds held.

use vstd::prelude::*;
use crate::text::count_nl;
use crate::text::splice;

verus! {

#[verifier::external_type_specification]
#[verifier::external_body]
pub struct ExRope(ropey::Rope);

/// The characters held by a rope, in order.
pub uninterp spec fn rope_chars(r: ropey::Rope) -> Seq<char>;

/// Relies on ropey's `Rope::from_str`: the rope holds exactly the
/// characters of the given text.
#[verifier::external_body]
pub(crate) fn rope_from_str(s: &str) -> (r: ropey::Rope)
    ensures
        rope_chars(r) == s@,
{
    ropey::Rope::from_str(s)
}

/// Relies on ropey's `Rope::len_chars`: the number of characters held.
#[verifier::external_body]
pub(crate) fn rope_len_chars(r: &ropey::Rope) -> (n: usize)
    ensures
        n == rope_chars(*r).len(),
{
    r.len_chars()
}

/// Relies on ropey's `Rope::len_lines`: one more than the number of line
/// breaks held, and with the crate's extended line breaks disabled the only
/// break is the line feed.
#[verifier::external_body]
pub(crate) fn rope_len_lines(r: &ropey::Rope) -> (n: usize)
    ensures
        n == count_nl(rope_chars(*r)) + 1,
{
    r.len_lines()
}

/// Relies on ropey's `Rope::char`: the character at the given index.
/// The call panics out of bounds, so the bound is required here.
#[verifier::external_body]
pub(crate) fn rope_char_at(r: &ropey::Rope, i: usize) -> (c: char)
    requires
        i < rope_chars(*r).len(),
    ensures
        c == rope_chars(*r)[i as int],
{
    r.char(i)
}

/// Relies on ropey's `Rope::insert_char`: inserts one character at the
/// given character index. The call panics past the end, so the bound is
/// required here.
#[verifier::external_body]
pub(crate) fn rope_insert_char(r: &mut ropey::Rope, i: usize, c: char)
    requires
        i <= rope_chars(*old(r)).len(),
    ensures
        rope_chars(*final(r)) == splice(rope_chars(*old(r)), i as int, i as int, seq![c]),
{
    r.insert_char(i, c)
}

/// Relies on ropey's `Rope::insert`: inserts the characters of a text at
/// the given character index. The call panics past the end, so the bound is
/// required here.
#[verifier::external_body]
pub(crate) fn rope_insert_str(r: &mut ropey::Rope, i: usize, s: &str)
    requires
        i <= rope_chars(*old(r)).len(),
    ensures
        rope_chars(*final(r)) == splice(rope_chars(*old(r)), i as int, i as int, s@),
{
    r.insert(i, s)
}

/// Relies on ropey's `Rope::remove`: removes the characters in the given
/// index range. The call panics on a reversed or out-of-bounds range, so
/// those are required away here.
#[verifier::external_body]
pub(crate) fn rope_remove(r: &mut ropey::Rope, a: usize, b: usize)
    requires
        a <= b <= rope_chars(*old(r)).len(),
    ensures
        rope_chars(*final(r)) == splice(rope_chars(*old(r)), a as int, b as int, Seq::empty()),
{
    r.remove(a..b)
}

} // verus!

//! Positions and spans in a text document.
//!
//! A position carries the display column, the line number and the exact
//! UTF-8 byte offset into the source.  The mathematical model relates a
//! position to the number of characters consumed so far: after `k`
//! characters the byte offset is the UTF-8 length of those characters,
//! the line is the number of line feeds among them, and the column is
//! the summed display width since the last line feed.

use vstd::prelude::*;
use vstd::utf8::*;
use crate::unicode::{char_width, exec_char_width};

verus! {

broadcast use vstd::slice::group_slice_axioms;

/// A position in a text document.
#[derive(Debug, Clone, Copy, PartialEq, Eq, Structural)]
pub struct TextPos {
    /// The display column from the start of the line.  Wide characters
    /// advance it by more than one column, zero-width characters not at
    /// all.
    pub col: usize,
    /// The line number.
    pub line: usize,
    /// The byte offset from the start of the document.
    pub byte: usize,
}

/// A span of text in a text document.
#[derive(Debug, Clone, Copy, PartialEq, Eq, Structural)]
pub struct Span {
    /// The start position of the span (inclusive).
    pub start: TextPos,
    /// The end position of the span (exclusive).
    pub end: TextPos,
}

/// Byte offset of the `k`-th character of `src`: the UTF-8 length of the
/// first `k` characters.
pub open spec fn byte_offset_at(src: Seq<char>, k: int) -> int {
    encode_utf8(src.take(k)).len() as int
}

/// Line number after consuming the first `k` characters of `src`: the
/// number of line feeds among them.
pub open spec fn line_at(src: Seq<char>, k: int) -> int
    decreases k,
{
    if k <= 0 {
        0
    } else if src[k - 1] == '\n' {
        line_at(src, k - 1) + 1
    } else {
        line_at(src, k - 1)
    }
}

/// Display column after consuming the first `k` characters of `src`:
/// the summed display width of the characters after the last line feed.
pub open spec fn col_at(src: Seq<char>, k: int) -> int
    decreases k,
{
    if k <= 0 {
        0
    } else if src[k - 1] == '\n' {
        0
    } else {
        col_at(src, k - 1) + char_width(src[k - 1])
    }
}

/// The byte offset of `p` is the one reached after `k` characters of `src`.
pub open spec fn pos_byte_is(p: TextPos, src: Seq<char>, k: int) -> bool {
    0 <= k <= src.len() && p.byte == byte_offset_at(src, k)
}

/// `p` is exactly the position reached after `k` characters of `src`.
pub open spec fn pos_is(p: TextPos, src: Seq<char>, k: int) -> bool {
    &&& pos_byte_is(p, src, k)
    &&& p.line == line_at(src, k)
    &&& p.col == col_at(src, k)
}

/// Line number after one more character.
pub open spec fn line_step(line: int, c: char) -> int {
    if c == '\n' {
        line + 1
    } else {
        line
    }
}

/// Display column after one more character.
pub open spec fn col_step(col: int, c: char) -> int {
    if c == '\n' {
        0
    } else {
        col + char_width(c)
    }
}

/// What `TextPos::next` returns when `self` sits `k` characters into `src`.
pub open spec fn next_result_is(p: TextPos, src: Seq<char>, k: int, r: Option<(char, TextPos)>) -> bool {
    match r {
        Option::None => k == src.len(),
        Option::Some((c, q)) => {
            &&& k < src.len()
            &&& c == src[k]
            &&& q.byte == byte_offset_at(src, k + 1)
            &&& q.line == line_step(p.line as int, c)
            &&& q.col == col_step(p.col as int, c)
            &&& q.col <= p.col + 3
        },
    }
}

/// UTF-8 encoding distributes over concatenation.
pub proof fn lemma_encode_utf8_concat(a: Seq<char>, b: Seq<char>)
    ensures
        encode_utf8(a + b) == encode_utf8(a) + encode_utf8(b),
    decreases a.len(),
{
    if a.len() == 0 {
        assert(a + b =~= b);
        assert(encode_utf8(a) + encode_utf8(b) =~= encode_utf8(b));
    } else {
        assert((a + b).len() > 0);
        assert((a + b)[0] == a[0]);
        assert((a + b).drop_first() =~= a.drop_first() + b);
        lemma_encode_utf8_concat(a.drop_first(), b);
        assert(encode_scalar(a[0] as u32) + (encode_utf8(a.drop_first()) + encode_utf8(b)) =~= (
        encode_scalar(a[0] as u32) + encode_utf8(a.drop_first())) + encode_utf8(b));
    }
}

/// A character's UTF-8 encoding takes between 1 and 4 bytes.
pub proof fn lemma_scalar_len(c: char)
    ensures
        1 <= encode_scalar(c as u32).len() <= 4,
{
    char_is_scalar(c);
}

/// One character advances the byte offset by the length of its encoding.
pub proof fn lemma_byte_offset_step(src: Seq<char>, k: int)
    requires
        0 <= k < src.len(),
    ensures
        byte_offset_at(src, k + 1) == byte_offset_at(src, k) + encode_scalar(src[k] as u32).len(),
{
    assert(src.take(k + 1) =~= src.take(k) + seq![src[k]]);
    lemma_encode_utf8_concat(src.take(k), seq![src[k]]);
    assert(encode_utf8(seq![src[k]]).len() == encode_scalar(src[k] as u32).len()) by {
        assert(seq![src[k]].drop_first() =~= Seq::<char>::empty());
        assert(encode_utf8(seq![src[k]]) =~= encode_scalar(src[k] as u32) + encode_utf8(
            Seq::<char>::empty(),
        ));
    }
}

/// Byte offsets grow strictly with the character index.
pub proof fn lemma_byte_offset_mono(src: Seq<char>, k1: int, k2: int)
    requires
        0 <= k1 <= k2 <= src.len(),
    ensures
        byte_offset_at(src, k1) <= byte_offset_at(src, k2),
        k1 < k2 ==> byte_offset_at(src, k1) + (k2 - k1) <= byte_offset_at(src, k2),
    decreases k2 - k1,
{
    if k1 < k2 {
        lemma_byte_offset_step(src, k2 - 1);
        lemma_scalar_len(src[k2 - 1]);
        lemma_byte_offset_mono(src, k1, k2 - 1);
    }
}

/// Two character indices with the same byte offset are equal.
pub proof fn lemma_byte_offset_unique(src: Seq<char>, k1: int, k2: int)
    requires
        0 <= k1 <= src.len(),
        0 <= k2 <= src.len(),
        byte_offset_at(src, k1) == byte_offset_at(src, k2),
    ensures
        k1 == k2,
{
    if k1 < k2 {
        lemma_byte_offset_mono(src, k1, k2);
    }
    if k2 < k1 {
        lemma_byte_offset_mono(src, k2, k1);
    }
}

/// The line number never exceeds the number of characters consumed.
pub proof fn lemma_line_at_le(src: Seq<char>, k: int)
    requires
        k >= 0,
    ensures
        0 <= line_at(src, k) <= k,
    decreases k,
{
    if k > 0 {
        lemma_line_at_le(src, k - 1);
    }
}

/// Number of UTF-8 bytes of one character, computed from its scalar value.
pub(crate) fn char_utf8_len(c: char) -> (n: usize)
    ensures
        n == encode_scalar(c as u32).len(),
        1 <= n <= 4,
{
    proof {
        char_is_scalar(c);
    }
    let u = c as u32;
    if u < 0x80 {
        1
    } else if u < 0x800 {
        2
    } else if u < 0x10000 {
        3
    } else {
        4
    }
}

impl TextPos {
    /// Create a `TextPos` at the start of a document.
    pub fn start() -> (p: TextPos)
        ensures
            p.col == 0,
            p.line == 0,
            p.byte == 0,
            forall|src: Seq<char>| pos_is(p, src, 0),
    {
        proof {
            assert forall|src: Seq<char>| byte_offset_at(src, 0) == 0 by {
                assert(src.take(0) =~= Seq::<char>::empty());
            }
        }
        TextPos { col: 0, line: 0, byte: 0 }
    }

    /// Advance a position by one character.  Returns the character that
    /// was advanced past and the new position, or `None` at the end of
    /// the input.
    pub fn next(self, src: &str) -> (r: Option<(char, TextPos)>)
        requires
            exists|k: int| pos_byte_is(self, src@, k),
            self.col <= usize::MAX - 3,
            self.line < usize::MAX,
        ensures
            forall|k: int| pos_byte_is(self, src@, k) ==> next_result_is(self, src@, k, r),
    {
        let ghost kk: int = choose|k: int| pos_byte_is(self, src@, k);
        let n_chars = src.unicode_len();
        let n_bytes = src.as_bytes().len();
        proof {
            assert(n_bytes == encode_utf8(src@).len());
            assert(src@.take(src@.len() as int) =~= src@);
            lemma_byte_offset_mono(src@, kk, src@.len() as int);
        }
        let mut i: usize = 0;
        let mut b: usize = 0;
        proof {
            assert(src@.take(0) =~= Seq::<char>::empty());
        }
        while b < self.byte
            invariant
                pos_byte_is(self, src@, kk),
                n_chars == src@.len(),
                0 <= i <= kk,
                b == byte_offset_at(src@, i as int),
                b <= self.byte,
            decreases self.byte - b,
        {
            proof {
                lemma_byte_offset_mono(src@, i as int, kk);
                assert(i < kk);
            }
            let c = src.get_char(i);
            let l = char_utf8_len(c);
            proof {
                lemma_byte_offset_step(src@, i as int);
                lemma_byte_offset_mono(src@, i as int + 1, kk);
            }
            b = b + l;
            i = i + 1;
        }
        proof {
            lemma_byte_offset_unique(src@, i as int, kk);
        }
        if i == n_chars {
            proof {
                assert forall|k: int| pos_byte_is(self, src@, k) implies next_result_is(
                    self,
                    src@,
                    k,
                    Option::<(char, TextPos)>::None,
                ) by {
                    lemma_byte_offset_unique(src@, k, kk);
                }
            }
            return Option::None;
        }
        let c = src.get_char(i);
        let l = char_utf8_len(c);
        proof {
            lemma_byte_offset_step(src@, kk);
            lemma_byte_offset_mono(src@, kk + 1, src@.len() as int);
        }
        let q = if c == '\n' {
            TextPos { col: 0, line: self.line + 1, byte: self.byte + l }
        } else {
            let w = exec_char_width(c);
            TextPos { col: self.col + w, line: self.line, byte: self.byte + l }
        };
        proof {
            assert(next_result_is(self, src@, kk, Option::Some((c, q))));
            assert forall|k: int| pos_byte_is(self, src@, k) implies next_result_is(
                self,
                src@,
                k,
                Option::Some((c, q)),
            ) by {
                lemma_byte_offset_unique(src@, k, kk);
            }
        }
        Option::Some((c, q))
    }
}

} // verus!

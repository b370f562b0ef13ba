//! Owned token sequences and non-owning views over them.

use vstd::prelude::*;
use vstd::slice::{slice_subrange, slice_index_get};
use crate::span::{TextPos, Span};
use crate::token::{Token, is_ws_token};

verus! {

broadcast use vstd::slice::group_slice_axioms;

/// An owned sequence of tokens, with the exclusive end position of the
/// text it covers.
#[derive(Debug, PartialEq)]
pub struct TokensBuf<'s> {
    /// The tokens, ordered by ascending start position.
    pub tokens: Vec<Token<'s>>,
    /// The exclusive end position of the covered text.
    pub end: TextPos,
}

/// A read-only window onto a token sequence.
#[derive(Debug, Clone, Copy, PartialEq)]
pub struct TokensRef<'t, 's: 't> {
    /// The windowed tokens.
    pub tokens: &'t [Token<'s>],
    /// The exclusive end position of the window.
    pub end: TextPos,
}

/// Index of the first non-whitespace token, or the length when every
/// token is whitespace.
pub open spec fn trim_lo(toks: Seq<Token>) -> int
    decreases toks.len(),
{
    if toks.len() == 0 {
        0
    } else if !is_ws_token(toks[0]) {
        0
    } else {
        1 + trim_lo(toks.drop_first())
    }
}

/// One past the index of the last non-whitespace token, or 0 when every
/// token is whitespace.
pub open spec fn trim_hi(toks: Seq<Token>) -> int
    decreases toks.len(),
{
    if toks.len() == 0 {
        0
    } else if !is_ws_token(toks.last()) {
        toks.len() as int
    } else {
        trim_hi(toks.drop_last())
    }
}

proof fn lemma_trim_lo_range(toks: Seq<Token>)
    ensures
        0 <= trim_lo(toks) <= toks.len(),
        forall|i: int| 0 <= i < trim_lo(toks) ==> is_ws_token(#[trigger] toks[i]),
        trim_lo(toks) < toks.len() ==> !is_ws_token(toks[trim_lo(toks)]),
    decreases toks.len(),
{
    if toks.len() > 0 && is_ws_token(toks[0]) {
        lemma_trim_lo_range(toks.drop_first());
        assert forall|i: int| 0 <= i < trim_lo(toks) implies is_ws_token(#[trigger] toks[i]) by {
            if i > 0 {
                assert(toks.drop_first()[i - 1] == toks[i]);
            }
        }
        if trim_lo(toks) < toks.len() {
            assert(toks.drop_first()[trim_lo(toks.drop_first())] == toks[trim_lo(toks)]);
        }
    }
}

proof fn lemma_trim_hi_range(toks: Seq<Token>)
    ensures
        0 <= trim_hi(toks) <= toks.len(),
        forall|i: int| trim_hi(toks) <= i < toks.len() ==> is_ws_token(#[trigger] toks[i]),
        trim_hi(toks) > 0 ==> !is_ws_token(toks[trim_hi(toks) - 1]),
    decreases toks.len(),
{
    if toks.len() > 0 && is_ws_token(toks.last()) {
        lemma_trim_hi_range(toks.drop_last());
        assert forall|i: int| trim_hi(toks) <= i < toks.len() implies is_ws_token(
            #[trigger] toks[i],
        ) by {
            if i < toks.len() - 1 {
                assert(toks.drop_last()[i] == toks[i]);
            }
        }
        if trim_hi(toks) > 0 {
            assert(toks.drop_last()[trim_hi(toks) - 1] == toks[trim_hi(toks) - 1]);
        }
    }
}

/// When some token is not whitespace, the trimmed range is non-empty.
proof fn lemma_trim_nonempty(toks: Seq<Token>, w: int)
    requires
        0 <= w < toks.len(),
        !is_ws_token(toks[w]),
    ensures
        trim_lo(toks) <= w < trim_hi(toks),
{
    lemma_trim_lo_range(toks);
    lemma_trim_hi_range(toks);
}

/// Index of the first non-whitespace token, or the length when every
/// token is whitespace.
fn first_non_ws_index(toks: &[Token]) -> (r: usize)
    ensures
        r == trim_lo(toks@),
{
    let n = toks.len();
    let mut i: usize = 0;
    while i < n
        invariant
            n == toks@.len(),
            0 <= i <= n,
            forall|j: int| 0 <= j < i ==> is_ws_token(#[trigger] toks@[j]),
        decreases n - i,
    {
        let t = slice_index_get(toks, i);
        if !t.is_whitespace() {
            proof {
                lemma_trim_lo_range(toks@);
                if (i as int) < trim_lo(toks@) {
                    assert(is_ws_token(toks@[i as int]));
                }
                if trim_lo(toks@) < i as int {
                    assert(is_ws_token(toks@[trim_lo(toks@)]));
                }
            }
            return i;
        }
        i = i + 1;
    }
    proof {
        lemma_trim_lo_range(toks@);
        if trim_lo(toks@) < toks@.len() {
            assert(is_ws_token(toks@[trim_lo(toks@)]));
        }
    }
    n
}

/// One past the index of the last non-whitespace token, or 0 when every
/// token is whitespace.
fn past_last_non_ws_index(toks: &[Token]) -> (r: usize)
    ensures
        r == trim_hi(toks@),
{
    let n = toks.len();
    let mut i: usize = n;
    while i > 0
        invariant
            n == toks@.len(),
            0 <= i <= n,
            forall|j: int| i <= j < n ==> is_ws_token(#[trigger] toks@[j]),
        decreases i,
    {
        let t = slice_index_get(toks, i - 1);
        if !t.is_whitespace() {
            proof {
                lemma_trim_hi_range(toks@);
                lemma_trim_nonempty(toks@, i as int - 1);
                if (i as int) < trim_hi(toks@) {
                    assert(is_ws_token(toks@[trim_hi(toks@) - 1]));
                }
            }
            return i;
        }
        i = i - 1;
    }
    proof {
        lemma_trim_hi_range(toks@);
        if trim_hi(toks@) > 0 {
            assert(is_ws_token(toks@[trim_hi(toks@) - 1]));
        }
    }
    0
}

impl<'s> Clone for TokensBuf<'s> {
    /// A structural copy.  As with a derived `Clone`, no specification
    /// is attached.
    fn clone(&self) -> Self
        decreases *self,
    {
        let n = self.tokens.len();
        let mut toks: Vec<Token<'s>> = Vec::new();
        let mut i: usize = 0;
        while i < n
            invariant
                n == self.tokens@.len(),
                0 <= i <= n,
            decreases n - i,
        {
            let t = slice_index_get(self.tokens.as_slice(), i);
            proof {
                assert(decreases_to!(self.tokens => self.tokens[i as int]));
            }
            toks.push(t.clone());
            i = i + 1;
        }
        TokensBuf { tokens: toks, end: self.end }
    }
}

impl<'s> TokensBuf<'s> {
    /// Produce a `TokensRef` view of this whole `TokensBuf`.
    pub fn borrow<'t>(&'t self) -> (r: TokensRef<'t, 's>)
        ensures
            r.tokens@ == self.tokens@,
            r.end == self.end,
    {
        TokensRef { tokens: self.tokens.as_slice(), end: self.end }
    }
}

impl<'t, 's: 't> TokensRef<'t, 's> {
    /// Slice a range of tokens between `start_index` (inclusive) and
    /// `end_index` (exclusive).  The view's end position is the start of
    /// the first token after the range, or this view's own end when the
    /// range reaches the last token.
    pub fn range(&self, start_index: usize, end_index: usize) -> (r: TokensRef<'t, 's>)
        requires
            start_index <= end_index <= self.tokens@.len(),
        ensures
            r.tokens@ == self.tokens@.subrange(start_index as int, end_index as int),
            r.end == if end_index < self.tokens@.len() {
                self.tokens@[end_index as int].start
            } else {
                self.end
            },
    {
        let end = if end_index < self.tokens.len() {
            slice_index_get(self.tokens, end_index).start
        } else {
            self.end
        };
        TokensRef { tokens: slice_subrange(self.tokens, start_index, end_index), end }
    }

    /// Slice a range of tokens between `start_index` and the end.
    pub fn range_from(&self, start_index: usize) -> (r: TokensRef<'t, 's>)
        requires
            start_index <= self.tokens@.len(),
        ensures
            r.tokens@ == self.tokens@.subrange(start_index as int, self.tokens@.len() as int),
            r.end == self.end,
    {
        TokensRef {
            tokens: slice_subrange(self.tokens, start_index, self.tokens.len()),
            end: self.end,
        }
    }

    /// Split around the token at `index`, returning all the tokens
    /// before it and all the tokens after it.
    pub fn split_around(&self, index: usize) -> (r: (TokensRef<'t, 's>, TokensRef<'t, 's>))
        requires
            index < self.tokens@.len(),
        ensures
            r.0.tokens@ == self.tokens@.subrange(0, index as int),
            r.0.end == self.tokens@[index as int].start,
            r.1.tokens@ == self.tokens@.subrange(index as int + 1, self.tokens@.len() as int),
            r.1.end == self.end,
    {
        let n = self.tokens.len();
        let l = TokensRef {
            tokens: slice_subrange(self.tokens, 0, index),
            end: slice_index_get(self.tokens, index).start,
        };
        let r = TokensRef { tokens: slice_subrange(self.tokens, index + 1, n), end: self.end };
        (l, r)
    }

    /// Trim whitespace tokens from both sides.  When every token is
    /// whitespace the result is empty and keeps this view's end.
    pub fn trim_whitespace(&self) -> (r: TokensRef<'t, 's>)
        ensures
            trim_lo(self.tokens@) == self.tokens@.len() ==> r.tokens@ == Seq::<Token>::empty()
                && r.end == self.end,
            trim_lo(self.tokens@) < self.tokens@.len() ==> r.tokens@ == self.tokens@.subrange(
                trim_lo(self.tokens@),
                trim_hi(self.tokens@),
            ) && r.end == if trim_hi(self.tokens@) == self.tokens@.len() {
                self.end
            } else {
                self.tokens@[trim_hi(self.tokens@)].start
            },
    {
        let lo = first_non_ws_index(self.tokens);
        if lo == self.tokens.len() {
            proof {
                assert(self.tokens@.subrange(0, 0) =~= Seq::<Token>::empty());
            }
            return TokensRef { tokens: slice_subrange(self.tokens, 0, 0), end: self.end };
        }
        let hi = past_last_non_ws_index(self.tokens);
        proof {
            lemma_trim_lo_range(self.tokens@);
            lemma_trim_hi_range(self.tokens@);
            lemma_trim_nonempty(self.tokens@, lo as int);
        }
        let end = if hi == self.tokens.len() {
            self.end
        } else {
            slice_index_get(self.tokens, hi).start
        };
        TokensRef { tokens: slice_subrange(self.tokens, lo, hi), end }
    }

    /// The span covered by this view: from the start of its first token
    /// (or its own end when empty) to its end.
    pub fn span(&self) -> (r: Span)
        ensures
            r.start == if self.tokens@.len() == 0 {
                self.end
            } else {
                self.tokens@[0].start
            },
            r.end == self.end,
    {
        Span {
            start: if self.tokens.len() == 0 {
                self.end
            } else {
                slice_index_get(self.tokens, 0).start
            },
            end: self.end,
        }
    }
}

} // verus!

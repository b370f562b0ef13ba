//! The lexer engine.
//!
//! The mathematical model of scanning is a family of recursive spec
//! functions over the character sequence of the source: `scan` produces
//! the sequence of model tokens (with their character ranges) or the
//! first error, `scan_string` decodes one string literal, and
//! `scan_symbol` performs greedy longest-match against the symbol table.
//! The executable engine is verified to return exactly what the model
//! prescribes, with every position tied to its character index.

use vstd::prelude::*;
use crate::span::{TextPos, pos_is, pos_byte_is, next_result_is, byte_offset_at, line_at, col_at};
use crate::token::{Token, TokenKind, StrText};
use crate::tokens::TokensBuf;
use crate::symbol_table::{
    validate_symbol_table,
    InvalidSymbolTableError,
    views_of,
    is_ambiguity_witness,
    prefix_free,
    has_two_symbol_split,
};
use crate::unicode::{
    is_ws_char,
    is_id_start,
    is_id_continue,
    is_open_bracket_char,
    is_close_bracket_char,
    matching_close_bracket,
    exec_is_ws,
    exec_is_id_start,
    exec_is_id_continue,
    exec_is_open_bracket,
    exec_is_close_bracket,
    exec_to_close_bracket,
};

verus! {

broadcast use vstd::slice::group_slice_axioms;

/// A token of the scanning model: the half-open character range it
/// covers, and what kind of token it is.
pub ghost struct ScanTok {
    /// Character index of the first character of the token.
    pub start: int,
    /// Character index just past the token.
    pub end: int,
    /// The kind, with its decoded payload where the text is not simply
    /// the covered source range.
    pub kind: ScanKind,
}

/// Kinds of model tokens.
pub ghost enum ScanKind {
    /// An identifier; its text is the covered source range.
    Ident,
    /// A whitespace run; its text is the covered source range.
    Whitespace,
    /// A symbol from the table; its text is the covered source range.
    Symbol,
    /// A string literal with its decoded text, and whether an escape
    /// forced the text to be owned.
    StrLit { text: Seq<char>, owned: bool },
    /// A bracketed group: its children, and the character index of the
    /// closing bracket.
    Bracket { children: Seq<ScanTok>, inner_end: int },
}

/// Errors of the scanning model, positioned by character index.
pub ghost enum ScanErr {
    /// A bracket closed by the wrong closing character.
    InvalidClosingBracket { open_k: int, close_k: int },
    /// The input ended inside a bracket.
    UnclosedBracket { open_k: int },
    /// A character that matches no lexical rule and no symbol.
    UnexpectedChar { k: int },
    /// The input ended inside a string literal opened at `quote_k`.
    UnclosedString { quote_k: int },
    /// A character that is not a lowercase hexadecimal digit inside a
    /// hexadecimal escape.
    InvalidEscapeDigit { k: int },
    /// An unknown character after a backslash.
    InvalidEscapeChar { k: int },
}

/// Result of scanning one nesting level: the tokens of the level, and
/// the character index of the closing bracket that stopped it (`None`
/// when the input ended instead).
pub ghost struct ScanDone {
    pub toks: Seq<ScanTok>,
    pub term: Option<int>,
}

/// The character index at which a level stopped scanning.
pub open spec fn scan_stop(d: ScanDone, src: Seq<char>) -> int {
    match d.term {
        Option::Some(t) => t,
        Option::None => src.len() as int,
    }
}

/// End of the whitespace run that begins at `k`.
pub open spec fn ws_end(src: Seq<char>, k: int) -> int
    decreases src.len() - k,
    when 0 <= k <= src.len()
{
    if k < src.len() && is_ws_char(src[k]) {
        ws_end(src, k + 1)
    } else {
        k
    }
}

/// End of the identifier-continue run that begins at `k`.
pub open spec fn id_end(src: Seq<char>, k: int) -> int
    decreases src.len() - k,
    when 0 <= k <= src.len()
{
    if k < src.len() && is_id_continue(src[k]) {
        id_end(src, k + 1)
    } else {
        k
    }
}

/// Whether `c` is a lowercase hexadecimal digit.
pub open spec fn is_hex_digit(c: char) -> bool {
    ('0' as u32) <= (c as u32) && (c as u32) <= ('9' as u32) || ('a' as u32) <= (c as u32) && (
    c as u32) <= ('f' as u32)
}

/// Value of a lowercase hexadecimal digit.
pub open spec fn hex_val(c: char) -> int {
    if (c as u32) <= ('9' as u32) {
        c as u32 - '0' as u32
    } else {
        c as u32 - 'a' as u32 + 10
    }
}

/// The character encoded by a two-digit hexadecimal escape.
pub open spec fn hex_char(c1: char, c2: char) -> char {
    ((hex_val(c1) * 16 + hex_val(c2)) as u32) as char
}

/// Whether `c` is one of the single-character escapes.
pub open spec fn simple_escape(c: char) -> bool {
    c == '\'' || c == '"' || c == '0' || c == 't' || c == 'n' || c == 'r' || c == '\\'
}

/// The character a single-character escape stands for.
pub open spec fn simple_unescape(c: char) -> char {
    if c == '0' {
        '\0'
    } else if c == 't' {
        '\t'
    } else if c == 'n' {
        '\n'
    } else if c == 'r' {
        '\r'
    } else {
        c
    }
}

/// Prepend decoded text to the result of scanning the rest of a string
/// literal.
pub open spec fn string_cons(
    t0: Seq<char>,
    o0: bool,
    rest: Result<(Seq<char>, bool, int), ScanErr>,
) -> Result<(Seq<char>, bool, int), ScanErr> {
    match rest {
        Result::Ok((t, o, e)) => Result::Ok((t0 + t, o0 || o, e)),
        Result::Err(x) => Result::Err(x),
    }
}

/// Scan the inside of a string literal that was opened with quote `q`
/// at index `quote_k`; `k` is the next character to read.  On success:
/// the decoded text, whether any escape occurred, and the character
/// index just past the closing quote.
pub open spec fn scan_string(src: Seq<char>, k: int, q: char, quote_k: int) -> Result<
    (Seq<char>, bool, int),
    ScanErr,
>
    decreases src.len() - k,
    when 0 <= k <= src.len()
{
    if k >= src.len() {
        Result::Err(ScanErr::UnclosedString { quote_k })
    } else if src[k] == q {
        Result::Ok((Seq::empty(), false, k + 1))
    } else if src[k] == '\\' {
        if k + 1 >= src.len() {
            Result::Err(ScanErr::UnclosedString { quote_k })
        } else {
            let e = src[k + 1];
            if simple_escape(e) {
                string_cons(seq![simple_unescape(e)], true, scan_string(src, k + 2, q, quote_k))
            } else if e == 'x' {
                if k + 2 >= src.len() || k + 3 >= src.len() {
                    Result::Err(ScanErr::UnclosedString { quote_k })
                } else if !is_hex_digit(src[k + 2]) {
                    Result::Err(ScanErr::InvalidEscapeDigit { k: k + 2 })
                } else if !is_hex_digit(src[k + 3]) {
                    Result::Err(ScanErr::InvalidEscapeDigit { k: k + 3 })
                } else {
                    string_cons(
                        seq![hex_char(src[k + 2], src[k + 3])],
                        true,
                        scan_string(src, k + 4, q, quote_k),
                    )
                }
            } else {
                Result::Err(ScanErr::InvalidEscapeChar { k: k + 1 })
            }
        }
    } else {
        string_cons(seq![src[k]], false, scan_string(src, k + 1, q, quote_k))
    }
}

/// Number of symbols that the candidate text is a prefix of.
pub open spec fn prefix_count(syms: Seq<Seq<char>>, cand: Seq<char>) -> int
    decreases syms.len(),
{
    if syms.len() == 0 {
        0
    } else {
        prefix_count(syms.drop_last(), cand) + if cand.is_prefix_of(syms.last()) {
            1int
        } else {
            0int
        }
    }
}

/// Whether `c` ends a symbol candidate: the next character would start
/// a different kind of token.
pub open spec fn is_stop_char(c: char) -> bool {
    is_ws_char(c) || is_id_start(c) || is_open_bracket_char(c) || is_close_bracket_char(c) || c
        == '\'' || c == '"'
}

/// Greedy longest-match of a symbol starting at `k0`.  The candidate is
/// `src[k0..j]`; `best` is the end of the longest complete match found
/// so far.  Returns the end of the symbol to emit, or `None` when no
/// candidate ever matched a symbol completely.
pub open spec fn scan_symbol(
    src: Seq<char>,
    syms: Seq<Seq<char>>,
    k0: int,
    j: int,
    best: Option<int>,
) -> Option<int>
    decreases src.len() - j,
    when 0 <= k0 < j <= src.len()
{
    let cand = src.subrange(k0, j);
    let m = prefix_count(syms, cand);
    let comp = syms.contains(cand);
    if m == 1 && comp {
        Option::Some(j)
    } else {
        let best2 = if comp {
            Option::Some(j)
        } else {
            best
        };
        if m == 0 {
            best2
        } else if j == src.len() || is_stop_char(src[j]) {
            best2
        } else {
            scan_symbol(src, syms, k0, j + 1, best2)
        }
    }
}

/// Clamp a continuation index into the range still to be scanned.
pub open spec fn clamp_next(e: int, lo: int, hi: int) -> int {
    if e < lo {
        lo
    } else if e > hi {
        hi
    } else {
        e
    }
}

/// Prepend one model token to the result of scanning the rest of the
/// level.
pub open spec fn scan_push(t: ScanTok, rest: Result<ScanDone, ScanErr>) -> Result<
    ScanDone,
    ScanErr,
> {
    match rest {
        Result::Ok(d) => Result::Ok(ScanDone { toks: seq![t] + d.toks, term: d.term }),
        Result::Err(x) => Result::Err(x),
    }
}

/// Scan one nesting level of the source, starting at character index
/// `k`.  Classification order per position: end of input, whitespace,
/// identifier start, opening bracket, closing bracket, quote, symbol.
pub open spec fn scan(src: Seq<char>, syms: Seq<Seq<char>>, k: int) -> Result<ScanDone, ScanErr>
    decreases src.len() - k,
    when 0 <= k <= src.len()
{
    if k >= src.len() {
        Result::Ok(ScanDone { toks: Seq::empty(), term: Option::None })
    } else {
        let c = src[k];
        if is_ws_char(c) {
            let e = clamp_next(ws_end(src, k + 1), k + 1, src.len() as int);
            scan_push(
                ScanTok { start: k, end: e, kind: ScanKind::Whitespace },
                scan(src, syms, e),
            )
        } else if is_id_start(c) {
            let e = clamp_next(id_end(src, k + 1), k + 1, src.len() as int);
            scan_push(ScanTok { start: k, end: e, kind: ScanKind::Ident }, scan(src, syms, e))
        } else if is_open_bracket_char(c) {
            match scan(src, syms, k + 1) {
                Result::Err(x) => Result::Err(x),
                Result::Ok(d) => match d.term {
                    Option::Some(t) => if src[t] == matching_close_bracket(c) {
                        let e = clamp_next(t + 1, k + 1, src.len() as int);
                        scan_push(
                            ScanTok {
                                start: k,
                                end: e,
                                kind: ScanKind::Bracket { children: d.toks, inner_end: t },
                            },
                            scan(src, syms, e),
                        )
                    } else {
                        Result::Err(ScanErr::InvalidClosingBracket { open_k: k, close_k: t })
                    },
                    Option::None => Result::Err(ScanErr::UnclosedBracket { open_k: k }),
                },
            }
        } else if is_close_bracket_char(c) {
            Result::Ok(ScanDone { toks: Seq::empty(), term: Option::Some(k) })
        } else if c == '\'' || c == '"' {
            match scan_string(src, k + 1, c, k) {
                Result::Err(x) => Result::Err(x),
                Result::Ok((text, owned, e0)) => {
                    let e = clamp_next(e0, k + 1, src.len() as int);
                    scan_push(
                        ScanTok { start: k, end: e, kind: ScanKind::StrLit { text, owned } },
                        scan(src, syms, e),
                    )
                },
            }
        } else {
            match scan_symbol(src, syms, k, k + 1, Option::None) {
                Option::Some(e0) => {
                    let e = clamp_next(e0, k + 1, src.len() as int);
                    scan_push(
                        ScanTok { start: k, end: e, kind: ScanKind::Symbol },
                        scan(src, syms, e),
                    )
                },
                Option::None => Result::Err(ScanErr::UnexpectedChar { k }),
            }
        }
    }
}

/// Prepend already-produced model tokens to the result of scanning the
/// rest of a level.
pub open spec fn scan_push_all(ts: Seq<ScanTok>, rest: Result<ScanDone, ScanErr>) -> Result<
    ScanDone,
    ScanErr,
> {
    match rest {
        Result::Ok(d) => Result::Ok(ScanDone { toks: ts + d.toks, term: d.term }),
        Result::Err(x) => Result::Err(x),
    }
}

/// Composing single-token prepends with a prefix of tokens.
pub proof fn lemma_push_all_compose(ts: Seq<ScanTok>, t: ScanTok, rest: Result<ScanDone, ScanErr>)
    ensures
        scan_push_all(ts, scan_push(t, rest)) == scan_push_all(ts.push(t), rest),
{
    match rest {
        Result::Ok(d) => {
            assert(ts + (seq![t] + d.toks) =~= ts.push(t) + d.toks);
        },
        Result::Err(_) => {},
    }
}

/// Prepending no tokens changes nothing.
pub proof fn lemma_push_all_empty(rest: Result<ScanDone, ScanErr>)
    ensures
        scan_push_all(Seq::empty(), rest) == rest,
{
    match rest {
        Result::Ok(d) => {
            assert(Seq::empty() + d.toks =~= d.toks);
        },
        Result::Err(_) => {},
    }
}

/// An exec token matches a model token: its start position sits at the
/// model's start index, and its payload is what the model prescribes.
pub open spec fn tok_abs(t: Token, src: Seq<char>, m: ScanTok) -> bool
    decreases m,
{
    &&& pos_is(t.start, src, m.start)
    &&& match m.kind {
        ScanKind::Ident => t.kind matches TokenKind::Ident(s) && s@ == src.subrange(
            m.start,
            m.end,
        ),
        ScanKind::Whitespace => t.kind matches TokenKind::Whitespace(s) && s@ == src.subrange(
            m.start,
            m.end,
        ),
        ScanKind::Symbol => t.kind matches TokenKind::Symbol(s) && s@ == src.subrange(
            m.start,
            m.end,
        ),
        ScanKind::StrLit { text, owned } => t.kind matches TokenKind::StrLit(st) && st.chars()
            == text && st.is_owned() == owned,
        ScanKind::Bracket { children, inner_end } => t.kind matches TokenKind::Bracket(c, tb) && c
            == src[m.start] && tb.tokens@.len() == children.len() && (forall|i: int|
            0 <= i < children.len() ==> tok_abs(tb.tokens@[i], src, #[trigger] children[i]))
            && pos_is(tb.end, src, inner_end),
    }
}

/// A sequence of exec tokens matches a sequence of model tokens.
pub open spec fn toks_abs(ts: Seq<Token>, src: Seq<char>, ms: Seq<ScanTok>) -> bool {
    ts.len() == ms.len() && (forall|i: int|
        0 <= i < ms.len() ==> tok_abs(ts[i], src, #[trigger] ms[i]))
}

/// An error produced by `lex`.
#[derive(Debug, PartialEq)]
pub enum LexError<'s> {
    /// The symbol table is ambiguous; carries the conflicting sequences.
    InvalidSymbolTable(InvalidSymbolTableError<'s>),
    /// A bracket was closed with a mismatched closer.
    InvalidClosingBracket { open_pos: TextPos, close_pos: TextPos },
    /// The input ended before a bracket was closed.
    UnclosedBracket { open_pos: TextPos },
    /// A character matched no lexical rule and no symbol.
    UnexpectedChar { pos: TextPos, c: char },
    /// A closing bracket appeared with no corresponding opener.
    UnexpectedClosingBracket { pos: TextPos, c: char },
    /// The input ended inside a quoted literal.
    UnclosedString { start_pos: TextPos },
    /// A character that is not a lowercase hexadecimal digit inside a
    /// hexadecimal escape.
    InvalidEscapeDigit { c: char, pos: TextPos },
    /// An escape denoted a value that is not a Unicode scalar value.
    InvalidEscapeCode { code: u32, pos: TextPos },
    /// An unknown character after a backslash.
    InvalidEscapeChar { c: char, pos: TextPos },
}

/// An exec error matches a model error: same variant, every position at
/// the model's character index, every character read off the source.
pub open spec fn err_abs(le: LexError, src: Seq<char>, e: ScanErr) -> bool {
    match e {
        ScanErr::InvalidClosingBracket { open_k, close_k } => le matches LexError::InvalidClosingBracket {
            open_pos,
            close_pos,
        } && pos_is(open_pos, src, open_k) && pos_is(close_pos, src, close_k),
        ScanErr::UnclosedBracket { open_k } => le matches LexError::UnclosedBracket { open_pos }
            && pos_is(open_pos, src, open_k),
        ScanErr::UnexpectedChar { k } => le matches LexError::UnexpectedChar { pos, c } && pos_is(
            pos,
            src,
            k,
        ) && c == src[k],
        ScanErr::UnclosedString { quote_k } => le matches LexError::UnclosedString { start_pos }
            && pos_is(start_pos, src, quote_k),
        ScanErr::InvalidEscapeDigit { k } => le matches LexError::InvalidEscapeDigit { c, pos }
            && pos_is(pos, src, k) && c == src[k],
        ScanErr::InvalidEscapeChar { k } => le matches LexError::InvalidEscapeChar { c, pos }
            && pos_is(pos, src, k) && c == src[k],
    }
}

/// The result of scanning one nesting level.
struct SubLex<'s> {
    /// The tokens of the level.
    tokens: TokensBuf<'s>,
    /// When the level ended at a closing bracket: that character and the
    /// position just after it.
    terminator: Option<(char, TextPos)>,
    /// The character index at which the level stopped.
    stop_k: usize,
}

/// The exec result of one level matches the model's.
spec fn sub_abs(r: Result<SubLex, LexError>, src: Seq<char>, syms: Seq<Seq<char>>, k0: int) -> bool {
    match scan(src, syms, k0) {
        Result::Ok(d) => r matches Result::Ok(s) && {
            &&& toks_abs(s.tokens.tokens@, src, d.toks)
            &&& pos_is(s.tokens.end, src, scan_stop(d, src))
            &&& s.stop_k == scan_stop(d, src)
            &&& k0 <= s.stop_k
            &&& match d.term {
                Option::Some(t) => s.terminator matches Option::Some((c, p)) && c == src[t]
                    && pos_is(p, src, t + 1) && p.col <= 3 * (t + 1),
                Option::None => s.terminator is None,
            }
        },
        Result::Err(e) => r matches Result::Err(le) && err_abs(le, src, e),
    }
}

/// Relies on String::push: appends one character to the buffer.
#[verifier::external_body]
fn push_char(s: &mut String, c: char)
    ensures
        final(s)@ == old(s)@.push(c),
{
    s.push(c)
}

/// Value of a lowercase hexadecimal digit, or `None` for any other
/// character.
fn exec_hex_val(c: char) -> (r: Option<u8>)
    ensures
        r is Some <==> is_hex_digit(c),
        r matches Option::Some(v) ==> v as int == hex_val(c) && v <= 15,
{
    let u = c as u32;
    if u >= 48 && u <= 57 {
        Option::Some((u - 48) as u8)
    } else if u >= 97 && u <= 102 {
        Option::Some((u - 97 + 10) as u8)
    } else {
        Option::None
    }
}

/// Whether `src[k..j]` is a prefix of the symbol `sym`.
fn range_is_prefix_of(src: &str, k: usize, j: usize, sym: &str) -> (r: bool)
    requires
        k <= j <= src@.len(),
    ensures
        r == src@.subrange(k as int, j as int).is_prefix_of(sym@),
{
    let len_cand = j - k;
    let len_sym = sym.unicode_len();
    if len_cand > len_sym {
        return false;
    }
    let mut i: usize = 0;
    while i < len_cand
        invariant
            0 <= i <= len_cand,
            len_cand == j - k,
            k <= j <= src@.len(),
            len_cand <= len_sym == sym@.len(),
            forall|t: int| 0 <= t < i ==> src@[k + t] == sym@[t],
        decreases len_cand - i,
    {
        if src.get_char(k + i) != sym.get_char(i) {
            proof {
                let cand = src@.subrange(k as int, j as int);
                if cand.is_prefix_of(sym@) {
                    assert(cand[i as int] == sym@.subrange(0, cand.len() as int)[i as int]);
                }
            }
            return false;
        }
        i = i + 1;
    }
    proof {
        assert(src@.subrange(k as int, j as int) =~= sym@.subrange(0, len_cand as int));
    }
    true
}

/// Whether `src[k..j]` equals the symbol `sym`.
fn range_eq_sym(src: &str, k: usize, j: usize, sym: &str) -> (r: bool)
    requires
        k <= j <= src@.len(),
    ensures
        r == (src@.subrange(k as int, j as int) == sym@),
{
    if j - k != sym.unicode_len() {
        return false;
    }
    if range_is_prefix_of(src, k, j, sym) {
        proof {
            assert(src@.subrange(k as int, j as int) =~= sym@);
        }
        true
    } else {
        proof {
            let cand = src@.subrange(k as int, j as int);
            if cand == sym@ {
                assert(cand =~= sym@.subrange(0, cand.len() as int));
            }
        }
        false
    }
}

/// Number of symbols that `src[k..j]` is a prefix of.
#[verifier::loop_isolation(false)]
fn count_prefix_syms(src: &str, k: usize, j: usize, symbols: &[&str]) -> (m: usize)
    requires
        k <= j <= src@.len(),
    ensures
        m as int == prefix_count(views_of(symbols@), src@.subrange(k as int, j as int)),
        m <= symbols@.len(),
{
    let ghost cand = src@.subrange(k as int, j as int);
    let ghost views = views_of(symbols@);
    let n = symbols.len();
    let mut m: usize = 0;
    let mut i: usize = 0;
    proof {
        assert(views.subrange(0, 0) =~= Seq::<Seq<char>>::empty());
    }
    while i < n
        invariant
            0 <= i <= n,
            m <= i,
            m as int == prefix_count(views.subrange(0, i as int), cand),
        decreases n - i,
    {
        let sym = *vstd::slice::slice_index_get(symbols, i);
        let pre = range_is_prefix_of(src, k, j, sym);
        proof {
            assert(views.subrange(0, i as int + 1).drop_last() =~= views.subrange(0, i as int));
            assert(views.subrange(0, i as int + 1).last() == sym@);
        }
        if pre {
            m = m + 1;
        }
        i = i + 1;
    }
    proof {
        assert(views.subrange(0, n as int) =~= views);
    }
    m
}

/// Whether the table contains `src[k..j]` as a symbol.
#[verifier::loop_isolation(false)]
fn table_contains_range(src: &str, k: usize, j: usize, symbols: &[&str]) -> (r: bool)
    requires
        k <= j <= src@.len(),
    ensures
        r == views_of(symbols@).contains(src@.subrange(k as int, j as int)),
{
    let ghost cand = src@.subrange(k as int, j as int);
    let ghost views = views_of(symbols@);
    let n = symbols.len();
    let mut i: usize = 0;
    while i < n
        invariant
            0 <= i <= n,
            forall|t: int| 0 <= t < i ==> views[t] != cand,
        decreases n - i,
    {
        let sym = *vstd::slice::slice_index_get(symbols, i);
        if range_eq_sym(src, k, j, sym) {
            proof {
                assert(views[i as int] == cand);
            }
            return true;
        }
        i = i + 1;
    }
    proof {
        if views.contains(cand) {
            let t = choose|t: int| 0 <= t < views.len() && views[t] == cand;
            assert(views[t] != cand);
        }
    }
    false
}

/// Advance past a maximal whitespace run: `p` sits at index `k`; the
/// result sits at the end of the run.
#[verifier::loop_isolation(false)]
fn ws_run(p: TextPos, k: usize, src: &str, n_chars: usize) -> (r: (TextPos, usize))
    requires
        pos_is(p, src@, k as int),
        p.col <= 3 * (k as int),
        3 * src@.len() <= usize::MAX,
        n_chars == src@.len(),
    ensures
        r.1 as int == ws_end(src@, k as int),
        pos_is(r.0, src@, r.1 as int),
        r.0.col <= 3 * (r.1 as int),
        k <= r.1 <= n_chars,
{
    let mut pos = p;
    let mut k2 = k;
    loop
        invariant
            pos_is(pos, src@, k2 as int),
            pos.col <= 3 * (k2 as int),
            k <= k2 <= n_chars,
            ws_end(src@, k as int) == ws_end(src@, k2 as int),
        decreases n_chars - k2,
    {
        if k2 == n_chars {
            return (pos, k2);
        }
        proof {
            assert(pos_byte_is(pos, src@, k2 as int));
            crate::span::lemma_line_at_le(src@, k2 as int);
        }
        let nx = pos.next(src);
        proof {
            assert(next_result_is(pos, src@, k2 as int, nx));
        }
        let (c2, p2) = match nx {
            Option::Some(x) => x,
            Option::None => {
                proof {
                    assert(false);
                }
                vstd::pervasive::unreached()
            },
        };
        if !exec_is_ws(c2) {
            return (pos, k2);
        }
        proof {
            assert(line_at(src@, k2 as int + 1) == crate::span::line_step(pos.line as int, c2));
            assert(col_at(src@, k2 as int + 1) == crate::span::col_step(pos.col as int, c2));
        }
        pos = p2;
        k2 = k2 + 1;
    }
}

/// Advance past a maximal identifier-continue run.
#[verifier::loop_isolation(false)]
fn id_run(p: TextPos, k: usize, src: &str, n_chars: usize) -> (r: (TextPos, usize))
    requires
        pos_is(p, src@, k as int),
        p.col <= 3 * (k as int),
        3 * src@.len() <= usize::MAX,
        n_chars == src@.len(),
    ensures
        r.1 as int == id_end(src@, k as int),
        pos_is(r.0, src@, r.1 as int),
        r.0.col <= 3 * (r.1 as int),
        k <= r.1 <= n_chars,
{
    let mut pos = p;
    let mut k2 = k;
    loop
        invariant
            pos_is(pos, src@, k2 as int),
            pos.col <= 3 * (k2 as int),
            k <= k2 <= n_chars,
            id_end(src@, k as int) == id_end(src@, k2 as int),
        decreases n_chars - k2,
    {
        if k2 == n_chars {
            return (pos, k2);
        }
        proof {
            assert(pos_byte_is(pos, src@, k2 as int));
            crate::span::lemma_line_at_le(src@, k2 as int);
        }
        let nx = pos.next(src);
        proof {
            assert(next_result_is(pos, src@, k2 as int, nx));
        }
        let (c2, p2) = match nx {
            Option::Some(x) => x,
            Option::None => {
                proof {
                    assert(false);
                }
                vstd::pervasive::unreached()
            },
        };
        if !exec_is_id_continue(c2) {
            return (pos, k2);
        }
        proof {
            assert(line_at(src@, k2 as int + 1) == crate::span::line_step(pos.line as int, c2));
            assert(col_at(src@, k2 as int + 1) == crate::span::col_step(pos.col as int, c2));
        }
        pos = p2;
        k2 = k2 + 1;
    }
}

/// Scan a string literal opened with quote `q` at index `quote_k`;
/// `p_after` sits just after the quote.  On success: the decoded text
/// (borrowed from the source unless an escape occurred), the position
/// just after the closing quote, and its character index.
#[verifier::loop_isolation(false)]
fn string_body<'s>(
    quote_pos: TextPos,
    quote_k: usize,
    q: char,
    p_after: TextPos,
    src: &'s str,
    n_chars: usize,
) -> (r: Result<(StrText<'s>, TextPos, usize), LexError<'s>>)
    requires
        (quote_k as int) < src@.len(),
        q == src@[quote_k as int],
        pos_is(quote_pos, src@, quote_k as int),
        pos_is(p_after, src@, quote_k as int + 1),
        p_after.col <= 3 * (quote_k as int + 1),
        3 * src@.len() <= usize::MAX,
        n_chars == src@.len(),
    ensures
        match scan_string(src@, quote_k as int + 1, q, quote_k as int) {
            Result::Ok((text, owned, e)) => r matches Result::Ok((st, pe, ke)) && st.chars()
                == text && st.is_owned() == owned && ke as int == e && pos_is(pe, src@, e)
                && pe.col <= 3 * e && quote_k < ke <= n_chars,
            Result::Err(sc) => r matches Result::Err(le) && err_abs(le, src@, sc),
        },
{
    let content_k = quote_k + 1;
    let mut pos2 = p_after;
    let mut k2 = content_k;
    let mut owned_buf: Option<String> = Option::None;
    let ghost mut acc: Seq<char> = Seq::empty();
    proof {
        assert(acc =~= src@.subrange(content_k as int, content_k as int));
    }
    loop
        invariant
            pos_is(pos2, src@, k2 as int),
            pos2.col <= 3 * (k2 as int),
            content_k <= k2 <= n_chars,
            scan_string(src@, content_k as int, q, quote_k as int) == string_cons(
                acc,
                owned_buf is Some,
                scan_string(src@, k2 as int, q, quote_k as int),
            ),
            match owned_buf {
                Option::Some(s) => s@ == acc,
                Option::None => acc == src@.subrange(content_k as int, k2 as int),
            },
        decreases n_chars - k2,
    {
        if k2 == n_chars {
            return Result::Err(LexError::UnclosedString { start_pos: quote_pos });
        }
        proof {
            assert(pos_byte_is(pos2, src@, k2 as int));
            crate::span::lemma_line_at_le(src@, k2 as int);
        }
        let nx = pos2.next(src);
        proof {
            assert(next_result_is(pos2, src@, k2 as int, nx));
        }
        let (c2, p2) = match nx {
            Option::Some(x) => x,
            Option::None => {
                proof {
                    assert(false);
                }
                vstd::pervasive::unreached()
            },
        };
        proof {
            assert(line_at(src@, k2 as int + 1) == crate::span::line_step(pos2.line as int, c2));
            assert(col_at(src@, k2 as int + 1) == crate::span::col_step(pos2.col as int, c2));
        }
        if c2 == q {
            // Closing quote: the literal is complete.
            proof {
                assert(acc + Seq::<char>::empty() =~= acc);
            }
            let st = match owned_buf {
                Option::Some(s) => StrText::Owned(s),
                Option::None => StrText::Borrowed(src.substring_char(content_k, k2)),
            };
            return Result::Ok((st, p2, k2 + 1));
        }
        if c2 == '\\' {
            // Escape sequence.
            if k2 + 1 == n_chars {
                return Result::Err(LexError::UnclosedString { start_pos: quote_pos });
            }
            proof {
                assert(pos_byte_is(p2, src@, k2 as int + 1));
                crate::span::lemma_line_at_le(src@, k2 as int + 1);
            }
            let nx2 = p2.next(src);
            proof {
                assert(next_result_is(p2, src@, k2 as int + 1, nx2));
            }
            let (e2, p3) = match nx2 {
                Option::Some(x) => x,
                Option::None => {
                    proof {
                        assert(false);
                    }
                    vstd::pervasive::unreached()
                },
            };
            proof {
                assert(line_at(src@, k2 as int + 2) == crate::span::line_step(p2.line as int, e2));
                assert(col_at(src@, k2 as int + 2) == crate::span::col_step(p2.col as int, e2));
            }
            if e2 == '\'' || e2 == '"' || e2 == '0' || e2 == 't' || e2 == 'n' || e2 == 'r' || e2
                == '\\' {
                let u: char = if e2 == '0' {
                    '\0'
                } else if e2 == 't' {
                    '\t'
                } else if e2 == 'n' {
                    '\n'
                } else if e2 == 'r' {
                    '\r'
                } else {
                    e2
                };
                let mut s: String = match owned_buf {
                    Option::Some(s) => s,
                    Option::None => src.substring_char(content_k, k2).to_owned(),
                };
                push_char(&mut s, u);
                proof {
                    lemma_string_cons_compose(
                        acc,
                        owned_buf is Some,
                        seq![simple_unescape(e2)],
                        true,
                        scan_string(src@, k2 as int + 2, q, quote_k as int),
                    );
                    assert(acc + seq![simple_unescape(e2)] =~= acc.push(u));
                    acc = acc.push(u);
                }
                owned_buf = Option::Some(s);
                pos2 = p3;
                k2 = k2 + 2;
                continue ;
            }
            if e2 == 'x' {
                if k2 + 2 == n_chars {
                    return Result::Err(LexError::UnclosedString { start_pos: quote_pos });
                }
                proof {
                    assert(pos_byte_is(p3, src@, k2 as int + 2));
                    crate::span::lemma_line_at_le(src@, k2 as int + 2);
                }
                let nx3 = p3.next(src);
                proof {
                    assert(next_result_is(p3, src@, k2 as int + 2, nx3));
                }
                let (d1, p4) = match nx3 {
                    Option::Some(x) => x,
                    Option::None => {
                        proof {
                            assert(false);
                        }
                        vstd::pervasive::unreached()
                    },
                };
                if k2 + 3 == n_chars {
                    return Result::Err(LexError::UnclosedString { start_pos: quote_pos });
                }
                proof {
                    assert(line_at(src@, k2 as int + 3) == crate::span::line_step(
                        p3.line as int,
                        d1,
                    ));
                    assert(col_at(src@, k2 as int + 3) == crate::span::col_step(p3.col as int, d1));
                    assert(pos_byte_is(p4, src@, k2 as int + 3));
                    crate::span::lemma_line_at_le(src@, k2 as int + 3);
                }
                let nx4 = p4.next(src);
                proof {
                    assert(next_result_is(p4, src@, k2 as int + 3, nx4));
                }
                let (d2, p5) = match nx4 {
                    Option::Some(x) => x,
                    Option::None => {
                        proof {
                            assert(false);
                        }
                        vstd::pervasive::unreached()
                    },
                };
                proof {
                    assert(line_at(src@, k2 as int + 4) == crate::span::line_step(
                        p4.line as int,
                        d2,
                    ));
                    assert(col_at(src@, k2 as int + 4) == crate::span::col_step(p4.col as int, d2));
                }
                let v1 = match exec_hex_val(d1) {
                    Option::Some(v) => v,
                    Option::None => {
                        return Result::Err(LexError::InvalidEscapeDigit { c: d1, pos: p3 });
                    },
                };
                let v2 = match exec_hex_val(d2) {
                    Option::Some(v) => v,
                    Option::None => {
                        return Result::Err(LexError::InvalidEscapeDigit { c: d2, pos: p4 });
                    },
                };
                let code: u8 = v1 * 16 + v2;
                let u: char = code as char;
                proof {
                    assert(u as u32 == code as u32);
                    vstd::utf8::char_u32_cast(u, code as u32);
                    assert(hex_char(d1, d2) == u);
                }
                let mut s: String = match owned_buf {
                    Option::Some(s) => s,
                    Option::None => src.substring_char(content_k, k2).to_owned(),
                };
                push_char(&mut s, u);
                proof {
                    lemma_string_cons_compose(
                        acc,
                        owned_buf is Some,
                        seq![hex_char(d1, d2)],
                        true,
                        scan_string(src@, k2 as int + 4, q, quote_k as int),
                    );
                    assert(acc + seq![hex_char(d1, d2)] =~= acc.push(u));
                    acc = acc.push(u);
                }
                owned_buf = Option::Some(s);
                pos2 = p5;
                k2 = k2 + 4;
                continue ;
            }
            return Result::Err(LexError::InvalidEscapeChar { c: e2, pos: p2 });
        }
        // Ordinary character inside the literal.
        proof {
            lemma_string_cons_compose(
                acc,
                owned_buf is Some,
                seq![src@[k2 as int]],
                false,
                scan_string(src@, k2 as int + 1, q, quote_k as int),
            );
            assert(acc + seq![src@[k2 as int]] =~= acc.push(c2));
        }
        owned_buf = match owned_buf {
            Option::Some(mut s) => {
                push_char(&mut s, c2);
                Option::Some(s)
            },
            Option::None => {
                proof {
                    assert(acc.push(c2) =~= src@.subrange(content_k as int, k2 as int + 1));
                }
                Option::None
            },
        };
        proof {
            acc = acc.push(c2);
        }
        pos2 = p2;
        k2 = k2 + 1;
    }
}

/// Greedy longest-match of a symbol starting at index `k`, whose first
/// character is `c`; `p_after` sits just after it.  Returns the end
/// index of the matched symbol and the position there, or `None` when
/// no candidate ever matched a symbol completely.
#[verifier::loop_isolation(false)]
fn symbol_match(
    k: usize,
    p_after: TextPos,
    src: &str,
    symbols: &[&str],
    n_chars: usize,
) -> (r: Option<(usize, TextPos)>)
    requires
        (k as int) < src@.len(),
        pos_is(p_after, src@, k as int + 1),
        p_after.col <= 3 * (k as int + 1),
        3 * src@.len() <= usize::MAX,
        n_chars == src@.len(),
    ensures
        match scan_symbol(src@, views_of(symbols@), k as int, k as int + 1, Option::None) {
            Option::Some(e) => r matches Option::Some((ke, pe)) && ke as int == e && pos_is(
                pe,
                src@,
                e,
            ) && pe.col <= 3 * e && k < ke <= n_chars,
            Option::None => r is None,
        },
{
    let ghost syms = views_of(symbols@);
    let mut j: usize = k + 1;
    let mut pos_j = p_after;
    let mut best: Option<(usize, TextPos)> = Option::None;
    let ghost mut best_m: Option<int> = Option::None;
    loop
        invariant
            k < j <= n_chars,
            pos_is(pos_j, src@, j as int),
            pos_j.col <= 3 * (j as int),
            scan_symbol(src@, syms, k as int, k as int + 1, Option::None) == scan_symbol(
                src@,
                syms,
                k as int,
                j as int,
                best_m,
            ),
            match best {
                Option::Some((ke, pe)) => best_m == Option::Some(ke as int) && pos_is(
                    pe,
                    src@,
                    ke as int,
                ) && pe.col <= 3 * (ke as int) && k < ke <= n_chars,
                Option::None => best_m is None,
            },
        decreases n_chars - j,
    {
        let m = count_prefix_syms(src, k, j, symbols);
        let comp = table_contains_range(src, k, j, symbols);
        if m == 1 && comp {
            return Option::Some((j, pos_j));
        }
        let best2 = if comp {
            Option::Some((j, pos_j))
        } else {
            best
        };
        let ghost best2_m: Option<int> = if comp {
            Option::Some(j as int)
        } else {
            best_m
        };
        if m == 0 {
            return best2;
        }
        if j == n_chars {
            return best2;
        }
        proof {
            assert(pos_byte_is(pos_j, src@, j as int));
            crate::span::lemma_line_at_le(src@, j as int);
        }
        let nx = pos_j.next(src);
        proof {
            assert(next_result_is(pos_j, src@, j as int, nx));
        }
        let (cj, pj) = match nx {
            Option::Some(x) => x,
            Option::None => {
                proof {
                    assert(false);
                }
                vstd::pervasive::unreached()
            },
        };
        let stop = exec_is_ws(cj) || exec_is_id_start(cj) || exec_is_open_bracket(cj)
            || exec_is_close_bracket(cj) || cj == '\'' || cj == '"';
        if stop {
            return best2;
        }
        proof {
            assert(line_at(src@, j as int + 1) == crate::span::line_step(pos_j.line as int, cj));
            assert(col_at(src@, j as int + 1) == crate::span::col_step(pos_j.col as int, cj));
        }
        best = best2;
        proof {
            best_m = best2_m;
        }
        pos_j = pj;
        j = j + 1;
    }
}

/// Appending one matching token keeps sequences matching.
proof fn lemma_toks_abs_push(ts: Seq<Token>, src: Seq<char>, ms: Seq<ScanTok>, t: Token, m: ScanTok)
    requires
        toks_abs(ts, src, ms),
        tok_abs(t, src, m),
    ensures
        toks_abs(ts.push(t), src, ms.push(m)),
{
    assert forall|i: int| 0 <= i < ms.push(m).len() implies tok_abs(
        ts.push(t)[i],
        src,
        #[trigger] ms.push(m)[i],
    ) by {
        if i < ms.len() {
            assert(tok_abs(ts[i], src, ms[i]));
        }
    }
}

/// Bridge for establishing `tok_abs` of a bracket token from its parts.
proof fn lemma_tok_abs_bracket(t: Token, src: Seq<char>, m: ScanTok)
    requires
        m.kind matches ScanKind::Bracket { children, inner_end } && t.kind
            matches TokenKind::Bracket(cc, tb) && cc == src[m.start] && tb.tokens@.len()
            == children.len() && (forall|i: int|
            0 <= i < children.len() ==> tok_abs(tb.tokens@[i], src, #[trigger] children[i]))
            && pos_is(tb.end, src, inner_end),
        pos_is(t.start, src, m.start),
    ensures
        tok_abs(t, src, m),
{
}

/// Scan one nesting level of `src`, starting at position `start`, which
/// sits `k0` characters into the source.  Verified to return exactly
/// what the `scan` model prescribes for index `k0`.
#[verifier::loop_isolation(false)]
#[verifier::rlimit(100)]
fn sub_lex<'s>(
    start: TextPos,
    k0: usize,
    src: &'s str,
    symbols: &[&'s str],
    n_chars: usize,
) -> (r: Result<SubLex<'s>, LexError<'s>>)
    requires
        pos_is(start, src@, k0 as int),
        start.col <= 3 * (k0 as int),
        3 * src@.len() <= usize::MAX,
        n_chars == src@.len(),
    ensures
        sub_abs(r, src@, views_of(symbols@), k0 as int),
    decreases src@.len() - k0,
{
    let ghost syms = views_of(symbols@);
    let mut tokens: Vec<Token<'s>> = Vec::new();
    let ghost mut toks_m: Seq<ScanTok> = Seq::empty();
    let mut pos = start;
    let mut k: usize = k0;
    proof {
        lemma_push_all_empty(scan(src@, syms, k0 as int));
    }
    loop
        invariant
            pos_is(pos, src@, k as int),
            pos.col <= 3 * (k as int),
            k0 <= k <= n_chars,
            toks_abs(tokens@, src@, toks_m),
            scan(src@, syms, k0 as int) == scan_push_all(toks_m, scan(src@, syms, k as int)),
        decreases n_chars - k,
    {
        if k == n_chars {
            // End of input: this level ends with no terminator.
            proof {
                assert(toks_m + Seq::<ScanTok>::empty() =~= toks_m);
            }
            return Result::Ok(
                SubLex {
                    tokens: TokensBuf { tokens, end: pos },
                    terminator: Option::None,
                    stop_k: k,
                },
            );
        }
        proof {
            assert(pos_byte_is(pos, src@, k as int));
            crate::span::lemma_line_at_le(src@, k as int);
        }
        let nx = pos.next(src);
        proof {
            assert(next_result_is(pos, src@, k as int, nx));
        }
        let (c, p) = match nx {
            Option::Some(x) => x,
            Option::None => {
                proof {
                    assert(false);
                }
                vstd::pervasive::unreached()
            },
        };
        proof {
            assert(line_at(src@, k as int + 1) == crate::span::line_step(pos.line as int, c));
            assert(col_at(src@, k as int + 1) == crate::span::col_step(pos.col as int, c));
            assert(pos_is(p, src@, k as int + 1));
        }
        if exec_is_ws(c) {
            // A maximal whitespace run becomes one token.
            let (p_end, k_end) = ws_run(p, k + 1, src, n_chars);
            let text = src.substring_char(k, k_end);
            let token = Token { start: pos, kind: TokenKind::Whitespace(text) };
            let ghost m = ScanTok {
                start: k as int,
                end: k_end as int,
                kind: ScanKind::Whitespace,
            };
            proof {
                assert(tok_abs(token, src@, m));
                assert(toks_abs(tokens@.push(token), src@, toks_m.push(m)));
                assert(scan(src@, syms, k as int) == scan_push(m, scan(src@, syms, k_end as int)));
                lemma_push_all_compose(toks_m, m, scan(src@, syms, k_end as int));
                toks_m = toks_m.push(m);
            }
            tokens.push(token);
            pos = p_end;
            k = k_end;
            continue ;
        }
        if exec_is_id_start(c) {
            // A maximal identifier run becomes one token.
            let (p_end, k_end) = id_run(p, k + 1, src, n_chars);
            let text = src.substring_char(k, k_end);
            let token = Token { start: pos, kind: TokenKind::Ident(text) };
            let ghost m = ScanTok { start: k as int, end: k_end as int, kind: ScanKind::Ident };
            proof {
                assert(tok_abs(token, src@, m));
                assert(toks_abs(tokens@.push(token), src@, toks_m.push(m)));
                assert(scan(src@, syms, k as int) == scan_push(m, scan(src@, syms, k_end as int)));
                lemma_push_all_compose(toks_m, m, scan(src@, syms, k_end as int));
                toks_m = toks_m.push(m);
            }
            tokens.push(token);
            pos = p_end;
            k = k_end;
            continue ;
        }
        if exec_is_open_bracket(c) {
            // Scan the bracket's contents one level deeper.
            let sub = match sub_lex(p, k + 1, src, symbols, n_chars) {
                Result::Ok(s) => s,
                Result::Err(e) => {
                    return Result::Err(e);
                },
            };
            let ghost d = scan(src@, syms, k as int + 1)->Ok_0;
            match sub.terminator {
                Option::None => {
                    return Result::Err(LexError::UnclosedBracket { open_pos: pos });
                },
                Option::Some((term_char, new_end)) => {
                    let closer = exec_to_close_bracket(c);
                    if term_char == closer {
                        let ghost t = d.term->Some_0;
                        let k_end = sub.stop_k + 1;
                        let token = Token { start: pos, kind: TokenKind::Bracket(c, sub.tokens) };
                        let ghost m = ScanTok {
                            start: k as int,
                            end: k_end as int,
                            kind: ScanKind::Bracket { children: d.toks, inner_end: t },
                        };
                        proof {
                            assert(token.kind matches TokenKind::Bracket(cc, tb) && cc == src@[
                            m.start] && tb.tokens@.len() == d.toks.len() && pos_is(
                                tb.end,
                                src@,
                                t,
                            ));
                            assert forall|i: int| 0 <= i < d.toks.len() implies tok_abs(
                                token.kind->Bracket_1.tokens@[i],
                                src@,
                                #[trigger] d.toks[i],
                            ) by {
                                assert(toks_abs(token.kind->Bracket_1.tokens@, src@, d.toks));
                            }
                            lemma_tok_abs_bracket(token, src@, m);
                            lemma_toks_abs_push(tokens@, src@, toks_m, token, m);
                            assert(clamp_next(t + 1, k as int + 1, src@.len() as int) == t + 1);
                            assert(scan(src@, syms, k as int) == scan_push(
                                m,
                                scan(src@, syms, k_end as int),
                            ));
                            lemma_push_all_compose(toks_m, m, scan(src@, syms, k_end as int));
                            toks_m = toks_m.push(m);
                        }
                        tokens.push(token);
                        pos = new_end;
                        k = k_end;
                        continue ;
                    } else {
                        return Result::Err(
                            LexError::InvalidClosingBracket {
                                open_pos: pos,
                                close_pos: sub.tokens.end,
                            },
                        );
                    }
                },
            }
        }
        if exec_is_close_bracket(c) {
            // This level stops just before the closing bracket; the
            // caller decides whether it matches.
            proof {
                assert(toks_m + Seq::<ScanTok>::empty() =~= toks_m);
            }
            return Result::Ok(
                SubLex {
                    tokens: TokensBuf { tokens, end: pos },
                    terminator: Option::Some((c, p)),
                    stop_k: k,
                },
            );
        }
        if c == '\'' || c == '"' {
            // A string literal.
            let (st, p_end, k_end) = match string_body(pos, k, c, p, src, n_chars) {
                Result::Ok(x) => x,
                Result::Err(e) => {
                    return Result::Err(e);
                },
            };
            let ghost (text, owned, e0) = scan_string(src@, k as int + 1, c, k as int)->Ok_0;
            let token = Token { start: pos, kind: TokenKind::StrLit(st) };
            let ghost m = ScanTok {
                start: k as int,
                end: k_end as int,
                kind: ScanKind::StrLit { text, owned },
            };
            proof {
                assert(tok_abs(token, src@, m));
                assert(toks_abs(tokens@.push(token), src@, toks_m.push(m)));
                assert(clamp_next(e0, k as int + 1, src@.len() as int) == e0);
                assert(scan(src@, syms, k as int) == scan_push(m, scan(src@, syms, k_end as int)));
                lemma_push_all_compose(toks_m, m, scan(src@, syms, k_end as int));
                toks_m = toks_m.push(m);
            }
            tokens.push(token);
            pos = p_end;
            k = k_end;
            continue ;
        }
        // Symbol matching, or an unexpected character.
        match symbol_match(k, p, src, symbols, n_chars) {
            Option::Some((k_end, p_end)) => {
                let text = src.substring_char(k, k_end);
                let token = Token { start: pos, kind: TokenKind::Symbol(text) };
                let ghost m = ScanTok { start: k as int, end: k_end as int, kind: ScanKind::Symbol };
                proof {
                    assert(tok_abs(token, src@, m));
                    assert(toks_abs(tokens@.push(token), src@, toks_m.push(m)));
                    assert(clamp_next(k_end as int, k as int + 1, src@.len() as int)
                        == k_end as int);
                    assert(scan(src@, syms, k as int) == scan_push(
                        m,
                        scan(src@, syms, k_end as int),
                    ));
                    lemma_push_all_compose(toks_m, m, scan(src@, syms, k_end as int));
                    toks_m = toks_m.push(m);
                }
                tokens.push(token);
                pos = p_end;
                k = k_end;
            },
            Option::None => {
                return Result::Err(LexError::UnexpectedChar { pos, c });
            },
        }
    }
}

/// What `lex` returns, in terms of the scanning model started at the
/// beginning of the source.
pub open spec fn lex_abs(
    r: Result<TokensBuf, LexError>,
    src: Seq<char>,
    syms: Seq<Seq<char>>,
) -> bool {
    match scan(src, syms, 0) {
        Result::Ok(d) => match d.term {
            Option::None => r matches Result::Ok(tb) && toks_abs(tb.tokens@, src, d.toks)
                && pos_is(tb.end, src, src.len() as int),
            Option::Some(t) => r matches Result::Err(LexError::UnexpectedClosingBracket {
                pos,
                c,
            }) && pos_is(pos, src, t) && c == src[t],
        },
        Result::Err(e) => r matches Result::Err(le) && err_abs(le, src, e),
    }
}

/// Turn a source text into a token tree, or fail on the first problem.
///
/// The symbol table is validated first: an ambiguous table is rejected
/// with the two conflicting decodings, before any scanning, so the
/// table error takes priority over every scan-time error — in
/// particular, a table with a two-symbol split is always rejected, and
/// a prefix-free table never is.  Otherwise the result is exactly what
/// the `scan` model prescribes for the whole source: the completed
/// token tree when the input ends cleanly, the first error in scan
/// order otherwise.
///
/// The bound on the source length is a machine limit: it keeps the
/// display-column arithmetic within `usize` (each character widens a
/// line by at most three columns).
pub fn lex<'s>(src: &'s str, symbols: &[&'s str]) -> (r: Result<TokensBuf<'s>, LexError<'s>>)
    requires
        3 * src@.len() <= usize::MAX,
    ensures
        r matches Result::Err(LexError::InvalidSymbolTable(e)) ==> is_ambiguity_witness(
            views_of(e.first@),
            views_of(e.second@),
            views_of(symbols@),
        ),
        prefix_free(views_of(symbols@)) ==> !(r matches Result::Err(
            LexError::InvalidSymbolTable(_),
        )),
        has_two_symbol_split(views_of(symbols@)) ==> r matches Result::Err(
            LexError::InvalidSymbolTable(_),
        ),
        !(r matches Result::Err(LexError::InvalidSymbolTable(_))) ==> lex_abs(
            r,
            src@,
            views_of(symbols@),
        ),
{
    match validate_symbol_table(symbols) {
        Result::Ok(()) => {},
        Result::Err(e) => {
            return Result::Err(LexError::InvalidSymbolTable(e));
        },
    }
    let pos = TextPos::start();
    let n_chars = src.unicode_len();
    proof {
        assert(pos_is(pos, src@, 0));
    }
    let sub = match sub_lex(pos, 0, src, symbols, n_chars) {
        Result::Ok(s) => s,
        Result::Err(e) => {
            return Result::Err(e);
        },
    };
    let SubLex { tokens, terminator, stop_k: _ } = sub;
    match terminator {
        Option::None => Result::Ok(tokens),
        Option::Some((c, _after)) => Result::Err(
            LexError::UnexpectedClosingBracket { pos: tokens.end, c },
        ),
    }
}

/// Composing decoded prefixes of a string literal.
proof fn lemma_string_cons_compose(
    a: Seq<char>,
    o1: bool,
    b: Seq<char>,
    o2: bool,
    rest: Result<(Seq<char>, bool, int), ScanErr>,
)
    ensures
        string_cons(a, o1, string_cons(b, o2, rest)) == string_cons(a + b, o1 || o2, rest),
{
    match rest {
        Result::Ok((t, o, e)) => {
            assert(a + (b + t) =~= (a + b) + t);
        },
        Result::Err(_) => {},
    }
}

} // verus!

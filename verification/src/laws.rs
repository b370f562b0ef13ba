//! Proved properties of the scanning model.
//!
//! These theorems state, once and for all inputs, what the token trees
//! produced by `lex` look like: the tokens tile the scanned range with
//! no gaps and no overlaps (so their concatenated source texts, with
//! each bracket's delimiters, rebuild the source exactly), token start
//! positions strictly increase, string literals own their decoded text
//! exactly when an escape occurred, and unknown escapes always fail.

use vstd::prelude::*;
use crate::span::{lemma_byte_offset_mono, pos_is};
use crate::token::Token;
use crate::lex::{
    ScanTok,
    ScanKind,
    ScanErr,
    scan,
    scan_stop,
    scan_string,
    scan_symbol,
    simple_escape,
    ws_end,
    id_end,
    toks_abs,
    tok_abs,
};

verus! {

/// A whitespace run never moves backwards and stays inside the source.
pub proof fn lemma_ws_end_bounds(src: Seq<char>, k: int)
    requires
        0 <= k <= src.len(),
    ensures
        k <= ws_end(src, k) <= src.len(),
    decreases src.len() - k,
{
    if k < src.len() && crate::unicode::is_ws_char(src[k]) {
        lemma_ws_end_bounds(src, k + 1);
    }
}

/// An identifier run never moves backwards and stays inside the source.
pub proof fn lemma_id_end_bounds(src: Seq<char>, k: int)
    requires
        0 <= k <= src.len(),
    ensures
        k <= id_end(src, k) <= src.len(),
    decreases src.len() - k,
{
    if k < src.len() && crate::unicode::is_id_continue(src[k]) {
        lemma_id_end_bounds(src, k + 1);
    }
}

/// A successfully scanned string literal ends strictly after it began
/// and inside the source.
pub proof fn lemma_scan_string_bounds(src: Seq<char>, k: int, q: char, quote_k: int)
    requires
        0 <= k <= src.len(),
        scan_string(src, k, q, quote_k) is Ok,
    ensures
        k < scan_string(src, k, q, quote_k)->Ok_0.2 <= src.len(),
    decreases src.len() - k,
{
    if k >= src.len() {
    } else if src[k] == q {
    } else if src[k] == '\\' {
        if k + 1 < src.len() {
            let e = src[k + 1];
            if simple_escape(e) {
                lemma_scan_string_bounds(src, k + 2, q, quote_k);
            } else if e == 'x' {
                if k + 3 < src.len() && crate::lex::is_hex_digit(src[k + 2])
                    && crate::lex::is_hex_digit(src[k + 3]) {
                    lemma_scan_string_bounds(src, k + 4, q, quote_k);
                }
            }
        }
    } else {
        lemma_scan_string_bounds(src, k + 1, q, quote_k);
    }
}

/// A matched symbol ends strictly after its start and inside the source.
pub proof fn lemma_scan_symbol_bounds(
    src: Seq<char>,
    syms: Seq<Seq<char>>,
    k0: int,
    j: int,
    best: Option<int>,
)
    requires
        0 <= k0 < j <= src.len(),
        best matches Option::Some(b) ==> k0 < b <= src.len(),
        scan_symbol(src, syms, k0, j, best) is Some,
    ensures
        k0 < scan_symbol(src, syms, k0, j, best)->0 <= src.len(),
    decreases src.len() - j,
{
    let cand = src.subrange(k0, j);
    let m = crate::lex::prefix_count(syms, cand);
    let comp = syms.contains(cand);
    if m == 1 && comp {
    } else {
        let best2 = if comp {
            Option::Some(j)
        } else {
            best
        };
        if m == 0 {
        } else if j == src.len() || crate::lex::is_stop_char(src[j]) {
        } else {
            lemma_scan_symbol_bounds(src, syms, k0, j + 1, best2);
        }
    }
}

/// A successful scan stops inside the source, never before its start;
/// when it stopped at a closing bracket, that index is a real position.
pub proof fn lemma_scan_stop_bounds(src: Seq<char>, syms: Seq<Seq<char>>, k: int)
    requires
        0 <= k <= src.len(),
        scan(src, syms, k) is Ok,
    ensures
        k <= scan_stop(scan(src, syms, k)->Ok_0, src) <= src.len(),
        scan(src, syms, k)->Ok_0.term matches Option::Some(t) ==> t < src.len(),
    decreases src.len() - k,
{
    let d = scan(src, syms, k)->Ok_0;
    if k >= src.len() {
    } else {
        let c = src[k];
        if crate::unicode::is_ws_char(c) {
            let e = crate::lex::clamp_next(ws_end(src, k + 1), k + 1, src.len() as int);
            lemma_scan_stop_bounds(src, syms, e);
        } else if crate::unicode::is_id_start(c) {
            let e = crate::lex::clamp_next(id_end(src, k + 1), k + 1, src.len() as int);
            lemma_scan_stop_bounds(src, syms, e);
        } else if crate::unicode::is_open_bracket_char(c) {
            lemma_scan_stop_bounds(src, syms, k + 1);
            let d1 = scan(src, syms, k + 1)->Ok_0;
            let t = d1.term->Some_0;
            let e = crate::lex::clamp_next(t + 1, k + 1, src.len() as int);
            lemma_scan_stop_bounds(src, syms, e);
        } else if crate::unicode::is_close_bracket_char(c) {
        } else if c == '\'' || c == '"' {
            let e0 = scan_string(src, k + 1, c, k)->Ok_0.2;
            let e = crate::lex::clamp_next(e0, k + 1, src.len() as int);
            lemma_scan_stop_bounds(src, syms, e);
        } else {
            let e0 = scan_symbol(src, syms, k, k + 1, Option::None)->0;
            let e = crate::lex::clamp_next(e0, k + 1, src.len() as int);
            lemma_scan_stop_bounds(src, syms, e);
        }
    }
}

/// The source text of one model token, bracket delimiters included.
pub open spec fn tok_text(m: ScanTok, src: Seq<char>) -> Seq<char>
    decreases m, 0int,
{
    match m.kind {
        ScanKind::Bracket { children, inner_end } => seq![src[m.start]] + toks_text(
            children,
            src,
            0,
        ) + seq![src[inner_end]],
        _ => src.subrange(m.start, m.end),
    }
}

/// The concatenated source texts of the model tokens from index `i` on.
pub open spec fn toks_text(ms: Seq<ScanTok>, src: Seq<char>, i: int) -> Seq<char>
    decreases ms, ms.len() - i,
    when 0 <= i
{
    if i >= ms.len() {
        Seq::empty()
    } else {
        tok_text(ms[i], src) + toks_text(ms, src, i + 1)
    }
}

proof fn lemma_toks_text_shift(m: ScanTok, ms: Seq<ScanTok>, src: Seq<char>, i: int)
    requires
        0 <= i <= ms.len(),
    ensures
        toks_text(seq![m] + ms, src, i + 1) == toks_text(ms, src, i),
    decreases ms.len() - i,
{
    if i < ms.len() {
        assert((seq![m] + ms)[i + 1] == ms[i]);
        lemma_toks_text_shift(m, ms, src, i + 1);
    }
}

proof fn lemma_toks_text_cons(m: ScanTok, ms: Seq<ScanTok>, src: Seq<char>)
    ensures
        toks_text(seq![m] + ms, src, 0) == tok_text(m, src) + toks_text(ms, src, 0),
{
    assert((seq![m] + ms)[0] == m);
    lemma_toks_text_shift(m, ms, src, 0);
}

/// Coverage invariant: for every successful scan, the concatenation of
/// all token source texts — recursively, with each bracket's delimiter
/// characters — equals the scanned range of the source exactly.
pub proof fn lemma_scan_coverage(src: Seq<char>, syms: Seq<Seq<char>>, k: int)
    requires
        0 <= k <= src.len(),
        scan(src, syms, k) is Ok,
    ensures
        toks_text(scan(src, syms, k)->Ok_0.toks, src, 0) == src.subrange(
            k,
            scan_stop(scan(src, syms, k)->Ok_0, src),
        ),
    decreases src.len() - k,
{
    let d = scan(src, syms, k)->Ok_0;
    let stop = scan_stop(d, src);
    lemma_scan_stop_bounds(src, syms, k);
    if k >= src.len() {
        assert(src.subrange(k, k) =~= Seq::<char>::empty());
    } else {
        let c = src[k];
        if crate::unicode::is_close_bracket_char(c) && !crate::unicode::is_ws_char(c)
            && !crate::unicode::is_id_start(c) && !crate::unicode::is_open_bracket_char(c) {
            assert(src.subrange(k, k) =~= Seq::<char>::empty());
        } else if crate::unicode::is_ws_char(c) {
            lemma_ws_end_bounds(src, k + 1);
            let e = crate::lex::clamp_next(ws_end(src, k + 1), k + 1, src.len() as int);
            let m = ScanTok { start: k, end: e, kind: ScanKind::Whitespace };
            let d2 = scan(src, syms, e)->Ok_0;
            lemma_scan_stop_bounds(src, syms, e);
            lemma_scan_coverage(src, syms, e);
            lemma_toks_text_cons(m, d2.toks, src);
            assert(src.subrange(k, e) + src.subrange(e, stop) =~= src.subrange(k, stop));
        } else if crate::unicode::is_id_start(c) {
            lemma_id_end_bounds(src, k + 1);
            let e = crate::lex::clamp_next(id_end(src, k + 1), k + 1, src.len() as int);
            let m = ScanTok { start: k, end: e, kind: ScanKind::Ident };
            let d2 = scan(src, syms, e)->Ok_0;
            lemma_scan_stop_bounds(src, syms, e);
            lemma_scan_coverage(src, syms, e);
            lemma_toks_text_cons(m, d2.toks, src);
            assert(src.subrange(k, e) + src.subrange(e, stop) =~= src.subrange(k, stop));
        } else if crate::unicode::is_open_bracket_char(c) {
            let d1 = scan(src, syms, k + 1)->Ok_0;
            let t = d1.term->Some_0;
            lemma_scan_stop_bounds(src, syms, k + 1);
            lemma_scan_coverage(src, syms, k + 1);
            let e = crate::lex::clamp_next(t + 1, k + 1, src.len() as int);
            let m = ScanTok {
                start: k,
                end: e,
                kind: ScanKind::Bracket { children: d1.toks, inner_end: t },
            };
            let d2 = scan(src, syms, e)->Ok_0;
            lemma_scan_stop_bounds(src, syms, e);
            lemma_scan_coverage(src, syms, e);
            lemma_toks_text_cons(m, d2.toks, src);
            assert(tok_text(m, src) =~= src.subrange(k, t + 1));
            assert(src.subrange(k, t + 1) + src.subrange(t + 1, stop) =~= src.subrange(k, stop));
        } else if c == '\'' || c == '"' {
            lemma_scan_string_bounds(src, k + 1, c, k);
            let r = scan_string(src, k + 1, c, k)->Ok_0;
            let e = crate::lex::clamp_next(r.2, k + 1, src.len() as int);
            let m = ScanTok {
                start: k,
                end: e,
                kind: ScanKind::StrLit { text: r.0, owned: r.1 },
            };
            let d2 = scan(src, syms, e)->Ok_0;
            lemma_scan_stop_bounds(src, syms, e);
            lemma_scan_coverage(src, syms, e);
            lemma_toks_text_cons(m, d2.toks, src);
            assert(src.subrange(k, e) + src.subrange(e, stop) =~= src.subrange(k, stop));
        } else {
            lemma_scan_symbol_bounds(src, syms, k, k + 1, Option::None);
            let e0 = scan_symbol(src, syms, k, k + 1, Option::None)->0;
            let e = crate::lex::clamp_next(e0, k + 1, src.len() as int);
            let m = ScanTok { start: k, end: e, kind: ScanKind::Symbol };
            let d2 = scan(src, syms, e)->Ok_0;
            lemma_scan_stop_bounds(src, syms, e);
            lemma_scan_coverage(src, syms, e);
            lemma_toks_text_cons(m, d2.toks, src);
            assert(src.subrange(k, e) + src.subrange(e, stop) =~= src.subrange(k, stop));
        }
    }
}

/// Coverage invariant for a lexed tree: the model tokens of every
/// successful `lex` result rebuild the whole source exactly.
pub proof fn lemma_lex_coverage(
    src: Seq<char>,
    syms: Seq<Seq<char>>,
    r: Result<crate::tokens::TokensBuf, crate::lex::LexError>,
)
    requires
        crate::lex::lex_abs(r, src, syms),
        r is Ok,
    ensures
        toks_text(scan(src, syms, 0)->Ok_0.toks, src, 0) == src,
{
    lemma_scan_coverage(src, syms, 0);
    assert(src.subrange(0, src.len() as int) =~= src);
}

/// The tokens of one level tile the scanned range: the first starts
/// where scanning began, each token ends where the next starts, every
/// token is non-empty, and the last ends where scanning stopped.
pub open spec fn toks_tile(ms: Seq<ScanTok>, k: int, stop: int) -> bool {
    &&& (ms.len() == 0 ==> stop == k)
    &&& (ms.len() > 0 ==> ms[0].start == k && ms[ms.len() - 1].end == stop)
    &&& (forall|i: int| 0 <= i < ms.len() - 1 ==> #[trigger] ms[i].end == ms[i + 1].start)
    &&& (forall|i: int| 0 <= i < ms.len() ==> #[trigger] ms[i].start < ms[i].end)
}

proof fn lemma_tile_cons(m: ScanTok, ms: Seq<ScanTok>, k: int, e: int, stop: int)
    requires
        m.start == k,
        m.end == e,
        k < e,
        toks_tile(ms, e, stop),
    ensures
        toks_tile(seq![m] + ms, k, stop),
{
    let all = seq![m] + ms;
    assert(all[0] == m);
    assert(forall|i: int| 0 <= i < ms.len() ==> all[i + 1] == #[trigger] ms[i]);
    if ms.len() == 0 {
        assert(all[all.len() - 1] == m);
    } else {
        assert(all[all.len() - 1] == ms[ms.len() - 1]);
    }
    assert forall|i: int| 0 <= i < all.len() - 1 implies #[trigger] all[i].end == all[i + 1].start
    by {
        if i == 0 {
            if ms.len() > 0 {
                assert(all[1] == ms[0]);
            }
        } else {
            assert(all[i] == ms[i - 1]);
            assert(all[i + 1] == ms[i]);
        }
    }
    assert forall|i: int| 0 <= i < all.len() implies #[trigger] all[i].start < all[i].end by {
        if i > 0 {
            assert(all[i] == ms[i - 1]);
        }
    }
}

/// Ordering invariant: the tokens of every successful scan tile the
/// scanned range, so they are strictly ordered by ascending start and
/// never overlap.
pub proof fn lemma_scan_tiling(src: Seq<char>, syms: Seq<Seq<char>>, k: int)
    requires
        0 <= k <= src.len(),
        scan(src, syms, k) is Ok,
    ensures
        toks_tile(scan(src, syms, k)->Ok_0.toks, k, scan_stop(scan(src, syms, k)->Ok_0, src)),
    decreases src.len() - k,
{
    let d = scan(src, syms, k)->Ok_0;
    let stop = scan_stop(d, src);
    lemma_scan_stop_bounds(src, syms, k);
    if k >= src.len() {
    } else {
        let c = src[k];
        if crate::unicode::is_close_bracket_char(c) && !crate::unicode::is_ws_char(c)
            && !crate::unicode::is_id_start(c) && !crate::unicode::is_open_bracket_char(c) {
        } else if crate::unicode::is_ws_char(c) {
            lemma_ws_end_bounds(src, k + 1);
            let e = crate::lex::clamp_next(ws_end(src, k + 1), k + 1, src.len() as int);
            let m = ScanTok { start: k, end: e, kind: ScanKind::Whitespace };
            lemma_scan_tiling(src, syms, e);
            lemma_tile_cons(m, scan(src, syms, e)->Ok_0.toks, k, e, stop);
        } else if crate::unicode::is_id_start(c) {
            lemma_id_end_bounds(src, k + 1);
            let e = crate::lex::clamp_next(id_end(src, k + 1), k + 1, src.len() as int);
            let m = ScanTok { start: k, end: e, kind: ScanKind::Ident };
            lemma_scan_tiling(src, syms, e);
            lemma_tile_cons(m, scan(src, syms, e)->Ok_0.toks, k, e, stop);
        } else if crate::unicode::is_open_bracket_char(c) {
            let d1 = scan(src, syms, k + 1)->Ok_0;
            let t = d1.term->Some_0;
            lemma_scan_stop_bounds(src, syms, k + 1);
            let e = crate::lex::clamp_next(t + 1, k + 1, src.len() as int);
            let m = ScanTok {
                start: k,
                end: e,
                kind: ScanKind::Bracket { children: d1.toks, inner_end: t },
            };
            lemma_scan_tiling(src, syms, e);
            lemma_tile_cons(m, scan(src, syms, e)->Ok_0.toks, k, e, stop);
        } else if c == '\'' || c == '"' {
            lemma_scan_string_bounds(src, k + 1, c, k);
            let r = scan_string(src, k + 1, c, k)->Ok_0;
            let e = crate::lex::clamp_next(r.2, k + 1, src.len() as int);
            let m = ScanTok {
                start: k,
                end: e,
                kind: ScanKind::StrLit { text: r.0, owned: r.1 },
            };
            lemma_scan_tiling(src, syms, e);
            lemma_tile_cons(m, scan(src, syms, e)->Ok_0.toks, k, e, stop);
        } else {
            lemma_scan_symbol_bounds(src, syms, k, k + 1, Option::None);
            let e0 = scan_symbol(src, syms, k, k + 1, Option::None)->0;
            let e = crate::lex::clamp_next(e0, k + 1, src.len() as int);
            let m = ScanTok { start: k, end: e, kind: ScanKind::Symbol };
            lemma_scan_tiling(src, syms, e);
            lemma_tile_cons(m, scan(src, syms, e)->Ok_0.toks, k, e, stop);
        }
    }
}

/// A model token is well-nested: a bracket's children tile the range
/// strictly between its delimiters, and are themselves well-nested.
pub open spec fn tok_wf(m: ScanTok, src: Seq<char>) -> bool
    decreases m, 0int,
{
    match m.kind {
        ScanKind::Bracket { children, inner_end } => toks_tile(children, m.start + 1, inner_end)
            && toks_wf(children, src, 0),
        _ => true,
    }
}

/// All model tokens from index `i` on are well-nested.
pub open spec fn toks_wf(ms: Seq<ScanTok>, src: Seq<char>, i: int) -> bool
    decreases ms, ms.len() - i,
    when 0 <= i
{
    i >= ms.len() || (tok_wf(ms[i], src) && toks_wf(ms, src, i + 1))
}

proof fn lemma_toks_wf_shift(m: ScanTok, ms: Seq<ScanTok>, src: Seq<char>, i: int)
    requires
        0 <= i <= ms.len(),
    ensures
        toks_wf(seq![m] + ms, src, i + 1) == toks_wf(ms, src, i),
    decreases ms.len() - i,
{
    if i < ms.len() {
        assert((seq![m] + ms)[i + 1] == ms[i]);
        lemma_toks_wf_shift(m, ms, src, i + 1);
    }
}

proof fn lemma_toks_wf_cons(m: ScanTok, ms: Seq<ScanTok>, src: Seq<char>)
    requires
        tok_wf(m, src),
        toks_wf(ms, src, 0),
    ensures
        toks_wf(seq![m] + ms, src, 0),
{
    assert((seq![m] + ms)[0] == m);
    lemma_toks_wf_shift(m, ms, src, 0);
}

/// Ordering invariant, recursively: every token of a successful scan is
/// well-nested, so every sequence in the produced tree — the top level
/// and the children of each bracket — tiles its range with no gaps and
/// no overlaps.
pub proof fn lemma_scan_wf(src: Seq<char>, syms: Seq<Seq<char>>, k: int)
    requires
        0 <= k <= src.len(),
        scan(src, syms, k) is Ok,
    ensures
        toks_wf(scan(src, syms, k)->Ok_0.toks, src, 0),
    decreases src.len() - k,
{
    let d = scan(src, syms, k)->Ok_0;
    lemma_scan_stop_bounds(src, syms, k);
    if k >= src.len() {
    } else {
        let c = src[k];
        if crate::unicode::is_close_bracket_char(c) && !crate::unicode::is_ws_char(c)
            && !crate::unicode::is_id_start(c) && !crate::unicode::is_open_bracket_char(c) {
        } else if crate::unicode::is_ws_char(c) {
            lemma_ws_end_bounds(src, k + 1);
            let e = crate::lex::clamp_next(ws_end(src, k + 1), k + 1, src.len() as int);
            let m = ScanTok { start: k, end: e, kind: ScanKind::Whitespace };
            lemma_scan_wf(src, syms, e);
            lemma_toks_wf_cons(m, scan(src, syms, e)->Ok_0.toks, src);
        } else if crate::unicode::is_id_start(c) {
            lemma_id_end_bounds(src, k + 1);
            let e = crate::lex::clamp_next(id_end(src, k + 1), k + 1, src.len() as int);
            let m = ScanTok { start: k, end: e, kind: ScanKind::Ident };
            lemma_scan_wf(src, syms, e);
            lemma_toks_wf_cons(m, scan(src, syms, e)->Ok_0.toks, src);
        } else if crate::unicode::is_open_bracket_char(c) {
            let d1 = scan(src, syms, k + 1)->Ok_0;
            let t = d1.term->Some_0;
            lemma_scan_stop_bounds(src, syms, k + 1);
            lemma_scan_tiling(src, syms, k + 1);
            lemma_scan_wf(src, syms, k + 1);
            let e = crate::lex::clamp_next(t + 1, k + 1, src.len() as int);
            let m = ScanTok {
                start: k,
                end: e,
                kind: ScanKind::Bracket { children: d1.toks, inner_end: t },
            };
            assert(tok_wf(m, src));
            lemma_scan_wf(src, syms, e);
            lemma_toks_wf_cons(m, scan(src, syms, e)->Ok_0.toks, src);
        } else if c == '\'' || c == '"' {
            lemma_scan_string_bounds(src, k + 1, c, k);
            let r = scan_string(src, k + 1, c, k)->Ok_0;
            let e = crate::lex::clamp_next(r.2, k + 1, src.len() as int);
            let m = ScanTok {
                start: k,
                end: e,
                kind: ScanKind::StrLit { text: r.0, owned: r.1 },
            };
            lemma_scan_wf(src, syms, e);
            lemma_toks_wf_cons(m, scan(src, syms, e)->Ok_0.toks, src);
        } else {
            lemma_scan_symbol_bounds(src, syms, k, k + 1, Option::None);
            let e0 = scan_symbol(src, syms, k, k + 1, Option::None)->0;
            let e = crate::lex::clamp_next(e0, k + 1, src.len() as int);
            let m = ScanTok { start: k, end: e, kind: ScanKind::Symbol };
            lemma_scan_wf(src, syms, e);
            lemma_toks_wf_cons(m, scan(src, syms, e)->Ok_0.toks, src);
        }
    }
}

/// In a tiled sequence, earlier tokens end no later than later ones
/// start.
pub proof fn lemma_tile_no_overlap(ms: Seq<ScanTok>, k: int, stop: int, i: int, j: int)
    requires
        toks_tile(ms, k, stop),
        0 <= i < j < ms.len(),
    ensures
        ms[i].end <= ms[j].start,
        ms[i].start < ms[j].start,
    decreases j - i,
{
    if i + 1 == j {
    } else {
        lemma_tile_no_overlap(ms, k, stop, i, j - 1);
    }
}

/// Ordering carried to the produced tokens themselves: within one
/// sequence of a lexed token tree, byte offsets of token starts
/// strictly increase.
pub proof fn lemma_tokens_byte_ordered(src: Seq<char>, syms: Seq<Seq<char>>, k: int, ts: Seq<Token>)
    requires
        0 <= k <= src.len(),
        scan(src, syms, k) is Ok,
        toks_abs(ts, src, scan(src, syms, k)->Ok_0.toks),
    ensures
        forall|i: int, j: int|
            0 <= i < j < ts.len() ==> #[trigger] ts[i].start.byte < #[trigger] ts[j].start.byte,
{
    let ms = scan(src, syms, k)->Ok_0.toks;
    let stop = scan_stop(scan(src, syms, k)->Ok_0, src);
    lemma_scan_tiling(src, syms, k);
    lemma_scan_stop_bounds(src, syms, k);
    assert forall|i: int, j: int| 0 <= i < j < ts.len() implies #[trigger] ts[i].start.byte
        < #[trigger] ts[j].start.byte by {
        lemma_tile_no_overlap(ms, k, stop, i, j);
        if j < ms.len() - 1 {
            lemma_tile_no_overlap(ms, k, stop, j, ms.len() - 1);
        }
        assert(ms[j].start < ms[j].end);
        assert(ms[j].start < src.len());
        assert(tok_abs(ts[i], src, ms[i]));
        assert(tok_abs(ts[j], src, ms[j]));
        assert(pos_is(ts[i].start, src, ms[i].start));
        assert(pos_is(ts[j].start, src, ms[j].start));
        lemma_byte_offset_mono(src, ms[i].start, ms[j].start);
    }
}

/// Ordering invariant for a lexed tree: the top-level tokens of every
/// successful `lex` result are strictly ordered by ascending start byte
/// offset.
pub proof fn lemma_lex_tokens_ordered(
    src: Seq<char>,
    syms: Seq<Seq<char>>,
    r: Result<crate::tokens::TokensBuf, crate::lex::LexError>,
)
    requires
        crate::lex::lex_abs(r, src, syms),
        r is Ok,
    ensures
        forall|i: int, j: int|
            0 <= i < j < r->Ok_0.tokens@.len() ==> #[trigger] r->Ok_0.tokens@[i].start.byte
                < #[trigger] r->Ok_0.tokens@[j].start.byte,
{
    lemma_tokens_byte_ordered(src, syms, 0, r->Ok_0.tokens@);
}

/// A string-literal model token owns its decoded text exactly when its
/// source — the characters strictly between its quotes — contains a
/// backslash; the children of a bracket are checked recursively.
pub open spec fn tok_lit_ok(m: ScanTok, src: Seq<char>) -> bool
    decreases m, 0int,
{
    match m.kind {
        ScanKind::StrLit { text, owned } => owned <==> exists|i: int|
            m.start < i < m.end - 1 && #[trigger] src[i] == '\\',
        ScanKind::Bracket { children, inner_end } => toks_lit_ok(children, src, 0),
        _ => true,
    }
}

/// All model tokens from index `i` on satisfy `tok_lit_ok`.
pub open spec fn toks_lit_ok(ms: Seq<ScanTok>, src: Seq<char>, i: int) -> bool
    decreases ms, ms.len() - i,
    when 0 <= i
{
    i >= ms.len() || (tok_lit_ok(ms[i], src) && toks_lit_ok(ms, src, i + 1))
}

proof fn lemma_toks_lit_ok_shift(m: ScanTok, ms: Seq<ScanTok>, src: Seq<char>, i: int)
    requires
        0 <= i <= ms.len(),
    ensures
        toks_lit_ok(seq![m] + ms, src, i + 1) == toks_lit_ok(ms, src, i),
    decreases ms.len() - i,
{
    if i < ms.len() {
        assert((seq![m] + ms)[i + 1] == ms[i]);
        lemma_toks_lit_ok_shift(m, ms, src, i + 1);
    }
}

proof fn lemma_toks_lit_ok_cons(m: ScanTok, ms: Seq<ScanTok>, src: Seq<char>)
    requires
        tok_lit_ok(m, src),
        toks_lit_ok(ms, src, 0),
    ensures
        toks_lit_ok(seq![m] + ms, src, 0),
{
    assert((seq![m] + ms)[0] == m);
    lemma_toks_lit_ok_shift(m, ms, src, 0);
}

/// Zero-copy, over the whole tree: in every successful scan, every
/// string-literal token — at any nesting depth — owns its decoded text
/// exactly when an escape occurs in its literal source, and can be
/// served as a direct view into the source otherwise.
pub proof fn lemma_scan_literals(src: Seq<char>, syms: Seq<Seq<char>>, k: int)
    requires
        0 <= k <= src.len(),
        scan(src, syms, k) is Ok,
    ensures
        toks_lit_ok(scan(src, syms, k)->Ok_0.toks, src, 0),
    decreases src.len() - k,
{
    lemma_scan_stop_bounds(src, syms, k);
    if k >= src.len() {
    } else {
        let c = src[k];
        if crate::unicode::is_close_bracket_char(c) && !crate::unicode::is_ws_char(c)
            && !crate::unicode::is_id_start(c) && !crate::unicode::is_open_bracket_char(c) {
        } else if crate::unicode::is_ws_char(c) {
            lemma_ws_end_bounds(src, k + 1);
            let e = crate::lex::clamp_next(ws_end(src, k + 1), k + 1, src.len() as int);
            let m = ScanTok { start: k, end: e, kind: ScanKind::Whitespace };
            lemma_scan_literals(src, syms, e);
            lemma_toks_lit_ok_cons(m, scan(src, syms, e)->Ok_0.toks, src);
        } else if crate::unicode::is_id_start(c) {
            lemma_id_end_bounds(src, k + 1);
            let e = crate::lex::clamp_next(id_end(src, k + 1), k + 1, src.len() as int);
            let m = ScanTok { start: k, end: e, kind: ScanKind::Ident };
            lemma_scan_literals(src, syms, e);
            lemma_toks_lit_ok_cons(m, scan(src, syms, e)->Ok_0.toks, src);
        } else if crate::unicode::is_open_bracket_char(c) {
            let d1 = scan(src, syms, k + 1)->Ok_0;
            let t = d1.term->Some_0;
            lemma_scan_stop_bounds(src, syms, k + 1);
            lemma_scan_literals(src, syms, k + 1);
            let e = crate::lex::clamp_next(t + 1, k + 1, src.len() as int);
            let m = ScanTok {
                start: k,
                end: e,
                kind: ScanKind::Bracket { children: d1.toks, inner_end: t },
            };
            lemma_scan_literals(src, syms, e);
            lemma_toks_lit_ok_cons(m, scan(src, syms, e)->Ok_0.toks, src);
        } else if c == '\'' || c == '"' {
            lemma_scan_string_bounds(src, k + 1, c, k);
            lemma_zero_copy(src, k + 1, c, k);
            let r = scan_string(src, k + 1, c, k)->Ok_0;
            let e = crate::lex::clamp_next(r.2, k + 1, src.len() as int);
            let m = ScanTok {
                start: k,
                end: e,
                kind: ScanKind::StrLit { text: r.0, owned: r.1 },
            };
            assert(tok_lit_ok(m, src));
            lemma_scan_literals(src, syms, e);
            lemma_toks_lit_ok_cons(m, scan(src, syms, e)->Ok_0.toks, src);
        } else {
            lemma_scan_symbol_bounds(src, syms, k, k + 1, Option::None);
            let e0 = scan_symbol(src, syms, k, k + 1, Option::None)->0;
            let e = crate::lex::clamp_next(e0, k + 1, src.len() as int);
            let m = ScanTok { start: k, end: e, kind: ScanKind::Symbol };
            lemma_scan_literals(src, syms, e);
            lemma_toks_lit_ok_cons(m, scan(src, syms, e)->Ok_0.toks, src);
        }
    }
}

/// Escape decoding: at a backslash inside a literal, a simple escape
/// contributes exactly its single-character meaning, a well-formed
/// hexadecimal escape contributes exactly the character of its byte
/// value, and a malformed hexadecimal digit fails at that digit; the
/// rest of the literal is decoded unchanged after the escape.
pub proof fn lemma_escape_decoding(src: Seq<char>, k: int, q: char, quote_k: int)
    requires
        0 <= k,
        k + 1 < src.len(),
        src[k] == '\\',
        src[k] != q,
    ensures
        simple_escape(src[k + 1]) ==> scan_string(src, k, q, quote_k) == crate::lex::string_cons(
            seq![crate::lex::simple_unescape(src[k + 1])],
            true,
            scan_string(src, k + 2, q, quote_k),
        ),
        src[k + 1] == 'x' && k + 3 < src.len() && crate::lex::is_hex_digit(src[k + 2])
            && crate::lex::is_hex_digit(src[k + 3]) ==> scan_string(src, k, q, quote_k)
            == crate::lex::string_cons(
            seq![crate::lex::hex_char(src[k + 2], src[k + 3])],
            true,
            scan_string(src, k + 4, q, quote_k),
        ),
        src[k + 1] == 'x' && k + 3 < src.len() && !crate::lex::is_hex_digit(src[k + 2])
            ==> scan_string(src, k, q, quote_k) == Result::<(Seq<char>, bool, int), ScanErr>::Err(
            ScanErr::InvalidEscapeDigit { k: k + 2 },
        ),
        src[k + 1] == 'x' && k + 3 < src.len() && crate::lex::is_hex_digit(src[k + 2])
            && !crate::lex::is_hex_digit(src[k + 3]) ==> scan_string(src, k, q, quote_k)
            == Result::<(Seq<char>, bool, int), ScanErr>::Err(
            ScanErr::InvalidEscapeDigit { k: k + 3 },
        ),
{
}

/// Decoding any escape other than the seven single-character escapes
/// and the two-digit hexadecimal escape fails with an invalid-escape
/// error at the offending character.
pub proof fn lemma_unknown_escape_fails(src: Seq<char>, k: int, q: char, quote_k: int)
    requires
        0 <= k,
        k + 1 < src.len(),
        src[k] == '\\',
        src[k] != q,
        !simple_escape(src[k + 1]),
        src[k + 1] != 'x',
    ensures
        scan_string(src, k, q, quote_k) == Result::<(Seq<char>, bool, int), ScanErr>::Err(
            ScanErr::InvalidEscapeChar { k: k + 1 },
        ),
{
}

/// Zero-copy property: the decoded text of a string literal is owned
/// exactly when the literal's source contains a backslash; otherwise it
/// can be served as a direct view into the source.
pub proof fn lemma_zero_copy(src: Seq<char>, k: int, q: char, quote_k: int)
    requires
        0 <= k <= src.len(),
        scan_string(src, k, q, quote_k) is Ok,
    ensures
        scan_string(src, k, q, quote_k)->Ok_0.1 <==> exists|i: int|
            k <= i < scan_string(src, k, q, quote_k)->Ok_0.2 - 1 && src[i] == '\\',
    decreases src.len() - k,
{
    let r = scan_string(src, k, q, quote_k)->Ok_0;
    lemma_scan_string_bounds(src, k, q, quote_k);
    if src[k] == q {
        assert(!r.1);
    } else if src[k] == '\\' {
        let e = src[k + 1];
        if simple_escape(e) {
            lemma_scan_string_bounds(src, k + 2, q, quote_k);
            assert(src[k] == '\\' && k <= k < r.2 - 1);
        } else {
            lemma_scan_string_bounds(src, k + 4, q, quote_k);
            assert(src[k] == '\\' && k <= k < r.2 - 1);
        }
    } else {
        lemma_zero_copy(src, k + 1, q, quote_k);
        let r2 = scan_string(src, k + 1, q, quote_k)->Ok_0;
        assert(r.1 == r2.1 && r.2 == r2.2);
        if r2.1 {
            let i = choose|i: int| k + 1 <= i < r2.2 - 1 && src[i] == '\\';
            assert(k <= i < r.2 - 1 && src[i] == '\\');
        }
        if exists|i: int| k <= i < r.2 - 1 && src[i] == '\\' {
            let i = choose|i: int| k <= i < r.2 - 1 && src[i] == '\\';
            assert(i != k);
            assert(k + 1 <= i < r2.2 - 1 && src[i] == '\\');
        }
    }
}

} // verus!

//! Symbol-table validation.
//!
//! A symbol table can be used for unambiguous lexing only if no two
//! distinct sequences of symbols concatenate to the same text.  The
//! validator searches for a counterexample by following dangling
//! suffixes of overlapping symbols; when it fails, it hands back the two
//! conflicting symbol sequences as a checkable witness of ambiguity.

use vstd::prelude::*;
use vstd::slice::slice_index_get;

verus! {

broadcast use vstd::slice::group_slice_axioms;

/// The texts of a list of symbol strings.
pub open spec fn views_of(syms: Seq<&str>) -> Seq<Seq<char>> {
    Seq::new(syms.len(), |i: int| syms[i]@)
}

/// Concatenation of a sequence of texts.
pub open spec fn concat_of(texts: Seq<Seq<char>>) -> Seq<char>
    decreases texts.len(),
{
    if texts.len() == 0 {
        Seq::empty()
    } else {
        texts[0] + concat_of(texts.drop_first())
    }
}

/// Every text of `a` occurs in the table `syms`.
pub open spec fn all_from(a: Seq<Seq<char>>, syms: Seq<Seq<char>>) -> bool {
    forall|i: int| 0 <= i < a.len() ==> syms.contains(#[trigger] a[i])
}

/// Two distinct sequences of symbols, both drawn from the table, that
/// concatenate to the same text: a genuine proof of ambiguity.
pub open spec fn is_ambiguity_witness(
    first: Seq<Seq<char>>,
    second: Seq<Seq<char>>,
    syms: Seq<Seq<char>>,
) -> bool {
    &&& first.len() > 0
    &&& second.len() > 0
    &&& all_from(first, syms)
    &&& all_from(second, syms)
    &&& first != second
    &&& concat_of(first) == concat_of(second)
}

/// `a` is a strict prefix of `b`.
pub open spec fn strict_prefix_of(a: Seq<char>, b: Seq<char>) -> bool {
    a.len() < b.len() && a.is_prefix_of(b)
}

/// No symbol of the table is a strict prefix of another.
pub open spec fn prefix_free(syms: Seq<Seq<char>>) -> bool {
    forall|i: int, j: int|
        0 <= i < syms.len() && 0 <= j < syms.len() ==> !strict_prefix_of(
            #[trigger] syms[i],
            #[trigger] syms[j],
        )
}

/// Some symbol spells exactly the concatenation of two entries of the
/// table: the simplest shape of ambiguity, where one symbol decodes
/// also as a pair of symbols.
pub open spec fn has_two_symbol_split(syms: Seq<Seq<char>>) -> bool {
    exists|i: int, j: int, k: int|
        #![trigger syms[i], syms[j], syms[k]]
        0 <= i < syms.len() && 0 <= j < syms.len() && 0 <= k < syms.len() && syms[i].len()
            < syms[j].len() && syms[j] == syms[i] + syms[k]
}

/// No two-symbol split of `syms[j]` starts with `syms[i]`.
spec fn no_split_at(syms: Seq<Seq<char>>, i: int, j: int) -> bool {
    forall|k: int|
        0 <= k < syms.len() ==> !(syms[i].len() < syms[j].len() && syms[j] == syms[i]
            + #[trigger] syms[k])
}

/// Appending one text to a sequence appends it to the concatenation.
proof fn lemma_concat_push(texts: Seq<Seq<char>>, t: Seq<char>)
    ensures
        concat_of(texts.push(t)) == concat_of(texts) + t,
    decreases texts.len(),
{
    if texts.len() == 0 {
        reveal_with_fuel(concat_of, 3);
        assert(texts.push(t).drop_first() =~= Seq::<Seq<char>>::empty());
        assert(texts.push(t)[0] == t);
        assert(t + Seq::<char>::empty() =~= t);
        assert(concat_of(texts) + t =~= t);
    } else {
        assert(texts.push(t).drop_first() =~= texts.drop_first().push(t));
        lemma_concat_push(texts.drop_first(), t);
        assert(texts[0] + (concat_of(texts.drop_first()) + t) =~= (texts[0] + concat_of(
            texts.drop_first(),
        )) + t);
    }
}

/// The concatenation of a single text is that text.
proof fn lemma_concat_singleton(t: Seq<char>)
    ensures
        concat_of(seq![t]) == t,
{
    reveal_with_fuel(concat_of, 3);
    assert(seq![t].drop_first() =~= Seq::<Seq<char>>::empty());
    assert(seq![t][0] == t);
    assert(t + Seq::<char>::empty() =~= t);
}

/// Error returned by `validate_symbol_table`: two sequences of symbols
/// that cannot be told apart because they concatenate to the same text.
#[derive(Debug, PartialEq)]
pub struct InvalidSymbolTableError<'s> {
    /// One way to decode the conflicting text.
    pub first: Vec<&'s str>,
    /// A different way to decode the same text.
    pub second: Vec<&'s str>,
}

/// Whether the text of `a` is a prefix of the text of `b`.
fn is_prefix_exec(a: &str, b: &str) -> (r: bool)
    ensures
        r == a@.is_prefix_of(b@),
{
    let la = a.unicode_len();
    let lb = b.unicode_len();
    if la > lb {
        return false;
    }
    let mut i: usize = 0;
    while i < la
        invariant
            0 <= i <= la,
            la == a@.len(),
            lb == b@.len(),
            la <= lb,
            forall|j: int| 0 <= j < i ==> a@[j] == b@[j],
        decreases la - i,
    {
        if a.get_char(i) != b.get_char(i) {
            proof {
                assert(b@.subrange(0, la as int)[i as int] == b@[i as int]);
            }
            return false;
        }
        i = i + 1;
    }
    proof {
        assert(a@ =~= b@.subrange(0, la as int));
    }
    true
}

/// Whether the texts of `a` and `b` are equal.
fn str_eq_exec(a: &str, b: &str) -> (r: bool)
    ensures
        r == (a@ == b@),
{
    if a.unicode_len() != b.unicode_len() {
        return false;
    }
    if is_prefix_exec(a, b) {
        proof {
            assert(a@ =~= b@);
        }
        true
    } else {
        proof {
            if a@ == b@ {
                assert(a@ =~= b@.subrange(0, a@.len() as int));
            }
        }
        false
    }
}

/// Whether some entry of `v` has the same text as `s`.
fn contains_str(v: &Vec<&str>, s: &str) -> (r: bool)
    ensures
        r == exists|i: int| 0 <= i < v@.len() && v@[i]@ == s@,
{
    let mut i: usize = 0;
    while i < v.len()
        invariant
            0 <= i <= v@.len(),
            forall|j: int| 0 <= j < i ==> v@[j]@ != s@,
        decreases v@.len() - i,
    {
        if str_eq_exec(v[i], s) {
            return true;
        }
        i = i + 1;
    }
    false
}

/// A copy of a list of string slices.
fn copy_str_vec<'s>(v: &Vec<&'s str>) -> (r: Vec<&'s str>)
    ensures
        r@ == v@,
{
    let mut r: Vec<&'s str> = Vec::new();
    let mut i: usize = 0;
    while i < v.len()
        invariant
            0 <= i <= v@.len(),
            r@ == v@.subrange(0, i as int),
        decreases v@.len() - i,
    {
        r.push(v[i]);
        proof {
            assert(r@ =~= v@.subrange(0, i as int + 1));
        }
        i = i + 1;
    }
    proof {
        assert(v@.subrange(0, v@.len() as int) =~= v@);
    }
    r
}

/// Follow one dangling suffix.  `complete_list` concatenated with
/// `postfix` spells the same text as `postfix_list`.  A symbol that the
/// suffix is a prefix of either cancels it exactly (an ambiguity) or
/// leaves a new dangling suffix on the other side, the two lists
/// swapping roles; a symbol that is a prefix of the suffix shortens it
/// on the same side.  `visited` records the suffixes already followed
/// so that the search terminates; `cap` bounds its growth.  On success,
/// no symbol of the table equals the dangling suffix.
#[verifier::loop_isolation(false)]
fn st_recurse<'s>(
    symbols: &[&'s str],
    complete_list: &mut Vec<&'s str>,
    postfix_list: &mut Vec<&'s str>,
    postfix: &'s str,
    visited: &mut Vec<&'s str>,
    cap: usize,
) -> (r: Result<(), InvalidSymbolTableError<'s>>)
    requires
        old(complete_list)@.len() > 0,
        old(postfix_list)@.len() > 0,
        all_from(views_of(old(complete_list)@), views_of(symbols@)),
        all_from(views_of(old(postfix_list)@), views_of(symbols@)),
        concat_of(views_of(old(complete_list)@)) + postfix@ == concat_of(
            views_of(old(postfix_list)@),
        ),
        strict_prefix_of(old(complete_list)@[0]@, old(postfix_list)@[0]@) || strict_prefix_of(
            old(postfix_list)@[0]@,
            old(complete_list)@[0]@,
        ),
        old(visited)@.len() <= cap + 1,
    ensures
        final(visited)@.len() >= old(visited)@.len(),
        r is Ok ==> final(complete_list)@ == old(complete_list)@ && final(postfix_list)@ == old(
            postfix_list,
        )@,
        r matches Err(e) ==> is_ambiguity_witness(
            views_of(e.first@),
            views_of(e.second@),
            views_of(symbols@),
        ),
        r is Ok ==> forall|t: int|
            0 <= t < symbols@.len() ==> views_of(symbols@)[t] != postfix@,
        r matches Err(e) ==> strict_prefix_of(
            views_of(e.first@)[0],
            views_of(e.second@)[0],
        ) || strict_prefix_of(views_of(e.second@)[0], views_of(e.first@)[0]),
    decreases cap + 1 - old(visited)@.len(),
{
    let ghost entry_complete = complete_list@;
    let ghost entry_postfix = postfix_list@;
    let ghost entry_visited_len = visited@.len();
    let n = symbols.len();
    let postfix_len = postfix.unicode_len();
    let mut idx: usize = 0;
    while idx < n
        invariant
            0 <= idx <= n,
            n == symbols@.len(),
            postfix_len == postfix@.len(),
            complete_list@ == entry_complete,
            postfix_list@ == entry_postfix,
            visited@.len() >= entry_visited_len,
            entry_visited_len <= cap + 1,
            entry_complete.len() > 0,
            entry_postfix.len() > 0,
            all_from(views_of(entry_complete), views_of(symbols@)),
            all_from(views_of(entry_postfix), views_of(symbols@)),
            concat_of(views_of(entry_complete)) + postfix@ == concat_of(views_of(entry_postfix)),
            strict_prefix_of(entry_complete[0]@, entry_postfix[0]@) || strict_prefix_of(
                entry_postfix[0]@,
                entry_complete[0]@,
            ),
            forall|t: int| 0 <= t < idx ==> views_of(symbols@)[t] != postfix@,
        decreases n - idx,
    {
        let symbol: &'s str = *slice_index_get(symbols, idx);
        if is_prefix_exec(postfix, symbol) {
            complete_list.push(symbol);
            proof {
                assert(views_of(complete_list@) =~= views_of(entry_complete).push(symbol@));
                lemma_concat_push(views_of(entry_complete), symbol@);
                assert(views_of(symbols@)[idx as int] == symbol@);
                assert(views_of(symbols@).contains(symbol@));
                assert forall|i: int| 0 <= i < views_of(complete_list@).len() implies views_of(
                    symbols@,
                ).contains(#[trigger] views_of(complete_list@)[i]) by {
                    if i < entry_complete.len() {
                        assert(views_of(entry_complete)[i] == views_of(complete_list@)[i]);
                    }
                }
            }
            let symbol_len = symbol.unicode_len();
            if symbol_len == postfix_len {
                // The suffix is cancelled exactly: the two lists now
                // spell the same text in different ways.
                proof {
                    assert(symbol@ =~= postfix@);
                    assert(concat_of(views_of(complete_list@)) == concat_of(
                        views_of(entry_postfix),
                    ));
                    assert(views_of(complete_list@)[0] == entry_complete[0]@);
                    assert(views_of(entry_postfix)[0] == entry_postfix[0]@);
                }
                let first = copy_str_vec(complete_list);
                let second = copy_str_vec(postfix_list);
                proof {
                    assert(views_of(first@) =~= views_of(complete_list@));
                    assert(views_of(second@) =~= views_of(entry_postfix));
                    assert(views_of(first@)[0] == entry_complete[0]@);
                    assert(views_of(second@)[0] == entry_postfix[0]@);
                    assert(views_of(first@)[0] != views_of(second@)[0]);
                }
                return Result::Err(InvalidSymbolTableError { first, second });
            }
            let new_postfix: &'s str = symbol.substring_char(postfix_len, symbol_len);
            proof {
                assert(symbol@ =~= postfix@ + new_postfix@);
                assert(concat_of(views_of(complete_list@)) == concat_of(views_of(entry_postfix))
                    + new_postfix@);
            }
            if !contains_str(visited, new_postfix) && visited.len() <= cap {
                visited.push(new_postfix);
                let res = st_recurse(symbols, postfix_list, complete_list, new_postfix, visited, cap);
                if res.is_err() {
                    return res;
                }
            }
            let _ = complete_list.pop();
            proof {
                assert(complete_list@ =~= entry_complete);
            }
        } else if is_prefix_exec(symbol, postfix) {
            // The symbol cancels the front of the dangling suffix,
            // leaving a shorter suffix on the same side.
            let symbol_len = symbol.unicode_len();
            complete_list.push(symbol);
            proof {
                assert(views_of(complete_list@) =~= views_of(entry_complete).push(symbol@));
                lemma_concat_push(views_of(entry_complete), symbol@);
                assert(views_of(symbols@)[idx as int] == symbol@);
                assert(views_of(symbols@).contains(symbol@));
                assert forall|i: int| 0 <= i < views_of(complete_list@).len() implies views_of(
                    symbols@,
                ).contains(#[trigger] views_of(complete_list@)[i]) by {
                    if i < entry_complete.len() {
                        assert(views_of(entry_complete)[i] == views_of(complete_list@)[i]);
                    }
                }
            }
            let new_postfix: &'s str = postfix.substring_char(symbol_len, postfix_len);
            proof {
                assert(postfix@ =~= symbol@ + new_postfix@);
                assert(concat_of(views_of(complete_list@)) + new_postfix@ == concat_of(
                    views_of(entry_postfix),
                ));
            }
            if !contains_str(visited, new_postfix) && visited.len() <= cap {
                visited.push(new_postfix);
                let res = st_recurse(
                    symbols,
                    complete_list,
                    postfix_list,
                    new_postfix,
                    visited,
                    cap,
                );
                if res.is_err() {
                    return res;
                }
            }
            let _ = complete_list.pop();
            proof {
                assert(complete_list@ =~= entry_complete);
            }
        }
        proof {
            assert(views_of(symbols@)[idx as int] == symbol@);
            if symbol@ == postfix@ {
                assert(postfix@ =~= symbol@.subrange(0, postfix@.len() as int));
            }
        }
        idx = idx + 1;
    }
    Result::Ok(())
}

/// Check that a symbol table can be used to lex unambiguously.
///
/// When the search finds two distinct symbol sequences that concatenate
/// to the same text, it returns them: every error this function returns
/// is a genuine ambiguity, and its two decodings begin with the
/// overlapping pair of symbols that seeded the search, one a strict
/// prefix of the other.  A table in which no symbol is a strict prefix
/// of another is always accepted; a table in which some symbol spells
/// the concatenation of two entries is always rejected.
#[verifier::loop_isolation(false)]
pub fn validate_symbol_table<'s>(symbols: &[&'s str]) -> (r: Result<
    (),
    InvalidSymbolTableError<'s>,
>)
    ensures
        r matches Err(e) ==> is_ambiguity_witness(
            views_of(e.first@),
            views_of(e.second@),
            views_of(symbols@),
        ),
        prefix_free(views_of(symbols@)) ==> r is Ok,
        has_two_symbol_split(views_of(symbols@)) ==> r is Err,
        r matches Err(e) ==> strict_prefix_of(
            views_of(e.first@)[0],
            views_of(e.second@)[0],
        ) || strict_prefix_of(views_of(e.second@)[0], views_of(e.first@)[0]),
{
    let n = symbols.len();
    // Upper bound on the number of distinct dangling suffixes: the
    // summed symbol lengths plus one slot per symbol.
    let mut cap: usize = 0;
    let mut ci: usize = 0;
    while ci < n
        invariant
            n == symbols@.len(),
        decreases n - ci,
    {
        let l = slice_index_get(symbols, ci).unicode_len();
        let room = usize::MAX - cap;
        if l < room {
            cap = cap + l + 1;
        } else {
            cap = usize::MAX;
        }
        ci = ci + 1;
    }
    let ghost views = views_of(symbols@);
    let mut i0: usize = 0;
    while i0 < n
        invariant
            n == symbols@.len(),
            forall|x: int, y: int| 0 <= x < i0 && 0 <= y < n ==> #[trigger] no_split_at(views, x, y),
        decreases n - i0,
    {
        let mut i1: usize = 0;
        while i1 < n
            invariant
                n == symbols@.len(),
                0 <= i0 < n,
                forall|x: int, y: int|
                    0 <= x < i0 && 0 <= y < n ==> #[trigger] no_split_at(views, x, y),
                forall|y: int| 0 <= y < i1 ==> #[trigger] no_split_at(views, i0 as int, y),
            decreases n - i1,
        {
            if i0 != i1 {
                let a: &'s str = *slice_index_get(symbols, i0);
                let b: &'s str = *slice_index_get(symbols, i1);
                let a_len = a.unicode_len();
                let b_len = b.unicode_len();
                proof {
                    assert(views[i0 as int] == a@);
                    assert(views[i1 as int] == b@);
                }
                if a_len < b_len && is_prefix_exec(a, b) {
                    let mut complete_list: Vec<&'s str> = Vec::new();
                    complete_list.push(a);
                    let mut postfix_list: Vec<&'s str> = Vec::new();
                    postfix_list.push(b);
                    let postfix: &'s str = b.substring_char(a_len, b_len);
                    let mut visited: Vec<&'s str> = Vec::new();
                    visited.push(postfix);
                    proof {
                        assert(b@ =~= a@ + postfix@);
                        assert(views_of(complete_list@) =~= seq![a@]);
                        assert(views_of(postfix_list@) =~= seq![b@]);
                        lemma_concat_singleton(a@);
                        lemma_concat_singleton(b@);
                        assert(views_of(symbols@)[i0 as int] == a@);
                        assert(views_of(symbols@)[i1 as int] == b@);
                        assert(views_of(symbols@).contains(a@));
                        assert(views_of(symbols@).contains(b@));
                    }
                    let res = st_recurse(
                        symbols,
                        &mut complete_list,
                        &mut postfix_list,
                        postfix,
                        &mut visited,
                        cap,
                    );
                    match res {
                        Result::Err(e) => {
                            proof {
                                if prefix_free(views_of(symbols@)) {
                                    assert(!strict_prefix_of(
                                        views_of(symbols@)[i0 as int],
                                        views_of(symbols@)[i1 as int],
                                    ));
                                }
                            }
                            return Result::Err(e);
                        },
                        Result::Ok(()) => {
                            // The search cancelled no suffix exactly, so
                            // this pair starts no two-symbol split.
                            proof {
                                assert forall|k: int| 0 <= k < views.len() implies !(views[
                                i0 as int].len() < views[i1 as int].len() && views[i1 as int]
                                    == views[i0 as int] + #[trigger] views[k]) by {
                                    if views[i0 as int].len() < views[i1 as int].len() && views[
                                    i1 as int] == views[i0 as int] + views[k] {
                                        assert((views[i0 as int] + views[k]).subrange(
                                            views[i0 as int].len() as int,
                                            (views[i0 as int] + views[k]).len() as int,
                                        ) =~= views[k]);
                                        assert(views_of(symbols@)[k] != postfix@);
                                    }
                                }
                                assert(no_split_at(views, i0 as int, i1 as int));
                            }
                        },
                    }
                } else {
                    // The pair is no strict prefix pair, so it starts no
                    // two-symbol split either.
                    proof {
                        assert forall|k: int| 0 <= k < views.len() implies !(views[i0 as int].len()
                            < views[i1 as int].len() && views[i1 as int] == views[i0 as int]
                            + #[trigger] views[k]) by {
                            if views[i0 as int].len() < views[i1 as int].len() && views[i1 as int]
                                == views[i0 as int] + views[k] {
                                assert((views[i0 as int] + views[k]).subrange(
                                    0,
                                    views[i0 as int].len() as int,
                                ) =~= views[i0 as int]);
                            }
                        }
                        assert(no_split_at(views, i0 as int, i1 as int));
                    }
                }
            } else {
                proof {
                    assert(no_split_at(views, i0 as int, i1 as int));
                }
            }
            i1 = i1 + 1;
        }
        i0 = i0 + 1;
    }
    proof {
        if has_two_symbol_split(views) {
            let (i, j, k) = choose|i: int, j: int, k: int|
                0 <= i < views.len() && 0 <= j < views.len() && 0 <= k < views.len()
                    && views[i].len() < views[j].len() && views[j] == views[i] + views[k];
            assert(no_split_at(views, i, j));
        }
    }
    Result::Ok(())
}

} // verus!

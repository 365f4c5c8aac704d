//! The substitution rule: longest-match-first, left to right, with identifier
//! keys matched only at word boundaries.
use vstd::prelude::*;
use crate::text::{is_word, occurs_at};
use crate::threat_detector::dangerous;

verus! {

/// A key made only of identifier characters.
pub open spec fn word_key(k: Seq<char>) -> bool {
    forall|j: int| 0 <= j < k.len() ==> is_word(#[trigger] k[j])
}

/// Key `k` matches text `t` at `i`: it occurs there and, when it is an
/// identifier key, is not part of a longer identifier.
pub open spec fn fires(t: Seq<char>, i: int, k: Seq<char>) -> bool {
    &&& k.len() > 0
    &&& occurs_at(t, i, k)
    &&& (word_key(k) ==> (i == 0 || !is_word(t[i - 1])))
    &&& (word_key(k) ==> (i + k.len() == t.len() || !is_word(t[i + k.len()])))
}

/// `k` is the longest key of `m` that matches `t` at `i`.
pub open spec fn best_at(m: Map<Seq<char>, Seq<char>>, t: Seq<char>, i: int, k: Seq<char>) -> bool {
    &&& m.contains_key(k)
    &&& fires(t, i, k)
    &&& forall|k2: Seq<char>| #[trigger] m.contains_key(k2) && fires(t, i, k2) ==> k2.len() <= k.len()
}

/// Some key of `m` matches `t` at `i`.
pub open spec fn has_match(m: Map<Seq<char>, Seq<char>>, t: Seq<char>, i: int) -> bool {
    exists|k: Seq<char>| best_at(m, t, i, k)
}

/// The key that wins at `i`.
pub open spec fn best_key(m: Map<Seq<char>, Seq<char>>, t: Seq<char>, i: int) -> Seq<char> {
    choose|k: Seq<char>| best_at(m, t, i, k)
}

/// The text from `i` on with every match replaced, left to right, without
/// re-scanning the replacements.
pub open spec fn rewrite(m: Map<Seq<char>, Seq<char>>, t: Seq<char>, i: int) -> Seq<char>
    decreases t.len() - i,
{
    if i < 0 || i >= t.len() {
        seq![]
    } else if has_match(m, t, i) {
        m[best_key(m, t, i)] + rewrite(m, t, i + best_key(m, t, i).len())
    } else {
        seq![t[i]] + rewrite(m, t, i + 1)
    }
}

/// Some replacement applied while rewriting from `i` on is dangerous.
pub open spec fn hits_danger(m: Map<Seq<char>, Seq<char>>, t: Seq<char>, i: int) -> bool
    decreases t.len() - i,
{
    if i < 0 || i >= t.len() {
        false
    } else if has_match(m, t, i) {
        dangerous(m[best_key(m, t, i)]) || hits_danger(m, t, i + best_key(m, t, i).len())
    } else {
        hits_danger(m, t, i + 1)
    }
}

/// The boundary rule: an identifier key never matches where the character
/// before or after it continues the identifier, so it is never the key chosen
/// there; a key holding any other character matches wherever it occurs.
pub proof fn lemma_boundary_rule(m: Map<Seq<char>, Seq<char>>, t: Seq<char>, i: int, k: Seq<char>)
    requires
        k.len() > 0,
    ensures
        word_key(k) && 0 < i && is_word(t[i - 1]) ==> !fires(t, i, k) && !best_at(m, t, i, k),
        word_key(k) && 0 <= i && i + k.len() < t.len() && is_word(t[i + k.len()]) ==> !fires(t, i, k)
            && !best_at(m, t, i, k),
        !word_key(k) ==> (fires(t, i, k) <==> occurs_at(t, i, k)),
{
}

/// The text from `i` on with every occurrence of `k`, left to right and
/// without overlap, replaced by `r`.
pub open spec fn replace_from(t: Seq<char>, k: Seq<char>, r: Seq<char>, i: int) -> Seq<char>
    decreases t.len() - i,
{
    if i < 0 || i >= t.len() {
        seq![]
    } else if k.len() > 0 && occurs_at(t, i, k) {
        r + replace_from(t, k, r, i + k.len())
    } else {
        seq![t[i]] + replace_from(t, k, r, i + 1)
    }
}

/// Under a mapping of one key that is not identifier-like, rewriting replaces
/// every occurrence of that key.
pub proof fn lemma_single_symbol_rewrite(k: Seq<char>, r: Seq<char>, t: Seq<char>, i: int)
    requires
        k.len() > 0,
        !word_key(k),
        0 <= i <= t.len(),
    ensures
        rewrite(map![k => r], t, i) == replace_from(t, k, r, i),
    decreases t.len() - i,
{
    let m = map![k => r];
    if i < t.len() {
        if occurs_at(t, i, k) {
            assert(best_at(m, t, i, k));
            lemma_best_unique(m, t, i, k, best_key(m, t, i));
            lemma_single_symbol_rewrite(k, r, t, i + k.len());
        } else {
            if has_match(m, t, i) {
                assert(m.contains_key(best_key(m, t, i)));
            }
            lemma_single_symbol_rewrite(k, r, t, i + 1);
        }
    }
}

/// At most one key is the longest match at a position.
pub proof fn lemma_best_unique(m: Map<Seq<char>, Seq<char>>, t: Seq<char>, i: int, k1: Seq<char>, k2: Seq<char>)
    requires
        best_at(m, t, i, k1),
        best_at(m, t, i, k2),
    ensures
        k1 == k2,
{
    assert(k1.len() <= k2.len());
    assert(k2.len() <= k1.len());
    assert(k1 =~= t.subrange(i, i + k1.len()));
    assert(k2 =~= t.subrange(i, i + k2.len()));
}

/// Where no key matches from `i` on, rewriting leaves the text as it is and
/// applies nothing.
pub proof fn lemma_rewrite_no_match(m: Map<Seq<char>, Seq<char>>, t: Seq<char>, i: int)
    requires
        0 <= i <= t.len(),
        forall|p: int, k: Seq<char>| i <= p < t.len() && #[trigger] m.contains_key(k) ==> !#[trigger] fires(t, p, k),
    ensures
        rewrite(m, t, i) == t.subrange(i, t.len() as int),
        !hits_danger(m, t, i),
    decreases t.len() - i,
{
    if i < t.len() {
        lemma_rewrite_no_match(m, t, i + 1);
        assert(t.subrange(i, t.len() as int) =~= seq![t[i]] + t.subrange(i + 1, t.len() as int));
    } else {
        assert(t.subrange(i, t.len() as int) =~= seq![]);
    }
}

} // verus!

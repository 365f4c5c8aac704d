//! The symbol transpiler: compiles a symbol mapping into ordered rules and
//! applies them to the code regions of a source text.
use ahash::AHashMap;
use vstd::prelude::*;
use vstd::string::StringExecFns;
use crate::literals::{append_chars, restore, split, views, weave, Protected};
use crate::matching::{
    best_at, best_key, fires, has_match, hits_danger, lemma_best_unique, lemma_rewrite_no_match,
    lemma_single_symbol_rewrite, replace_from, rewrite,
    word_key,
};
use crate::text::{chars_to_string, is_word_char, occurs_at, to_chars};
use crate::threat_detector::{dangerous, ThreatDetector};

verus! {

#[verifier::external_type_specification]
#[verifier::external_body]
#[verifier::reject_recursive_types(K)]
#[verifier::reject_recursive_types(V)]
#[verifier::reject_recursive_types(S)]
pub struct ExAHashMap<K, V, S>(ahash::AHashMap<K, V, S>);

#[verifier::external_type_specification]
#[verifier::external_body]
pub struct ExRandomState(ahash::RandomState);

/// What an `AHashMap` of strings holds: the text of each key mapped to the
/// text of its value.
pub uninterp spec fn ahash_contents(m: AHashMap<String, String>) -> Map<Seq<char>, Seq<char>>;

/// Relies on `IntoIterator for AHashMap` (std's `HashMap::into_iter`): every
/// entry comes out exactly once, in an unspecified order.
#[verifier::external_body]
fn ahash_entries(m: AHashMap<String, String>) -> (r: Vec<(String, String)>)
    ensures
        forall|e: int| #![trigger r[e]] 0 <= e < r.len() ==> ahash_contents(m).contains_key(r[e].0@)
            && ahash_contents(m)[r[e].0@] == r[e].1@,
        forall|k: Seq<char>| #[trigger] ahash_contents(m).contains_key(k) ==> exists|e: int|
            0 <= e < r.len() && r[e].0@ == k,
{
    m.into_iter().collect()
}

/// What `transpile` produces for source `s` under mapping `m`: `None` when a
/// dangerous replacement would be applied and security checking is on; otherwise every
/// code region rewritten and the protected regions put back in place.
pub open spec fn transpiled(m: Map<Seq<char>, Seq<char>>, s: Seq<char>, bypass: bool) -> Option<Seq<char>> {
    let parts = split(s, 0, 0);
    if !bypass && exists|j: int| 0 <= j < parts.0.len() && hits_danger(m, #[trigger] parts.0[j], 0) {
        None
    } else {
        Some(weave(parts.0.map_values(|c: Seq<char>| rewrite(m, c, 0)), parts.1))
    }
}

/// Where no key matches anywhere in the code regions, transpiling returns the
/// input unchanged.
pub proof fn lemma_no_match_identity(m: Map<Seq<char>, Seq<char>>, s: Seq<char>, bypass: bool)
    requires
        forall|j: int, p: int, k: Seq<char>| 0 <= j < split(s, 0, 0).0.len() && #[trigger] m.contains_key(k)
            ==> !#[trigger] fires(split(s, 0, 0).0[j], p, k),
    ensures
        transpiled(m, s, bypass) == Some(s),
{
    let parts = split(s, 0, 0);
    crate::literals::lemma_split_weave(s, 0, 0);
    assert forall|j: int| 0 <= j < parts.0.len() implies rewrite(m, #[trigger] parts.0[j], 0) == parts.0[j]
        && !hits_danger(m, parts.0[j], 0) by {
        lemma_rewrite_no_match(m, parts.0[j], 0);
        assert(parts.0[j].subrange(0, parts.0[j].len() as int) =~= parts.0[j]);
    }
    assert(parts.0.map_values(|c: Seq<char>| rewrite(m, c, 0)) =~= parts.0);
    assert(s.subrange(0, s.len() as int) =~= s);
}

/// With an empty mapping, transpiling returns the input unchanged, whether
/// security checking is on or off.
pub proof fn lemma_empty_mapping_identity(s: Seq<char>, bypass: bool)
    ensures
        transpiled(Map::empty(), s, bypass) == Some(s),
{
    lemma_no_match_identity(Map::empty(), s, bypass);
}

proof fn lemma_dangerous_match_reached(k: Seq<char>, r: Seq<char>, t: Seq<char>, i: int, p: int)
    requires
        k.len() > 0,
        !word_key(k),
        dangerous(r),
        0 <= i <= p,
        occurs_at(t, p, k),
    ensures
        hits_danger(map![k => r], t, i),
    decreases p - i,
{
    let m = map![k => r];
    if has_match(m, t, i) {
        assert(m.contains_key(crate::matching::best_key(m, t, i)));
    } else {
        if i == p {
            assert(best_at(m, t, p, k));
        }
        lemma_dangerous_match_reached(k, r, t, i + 1, p);
    }
}

/// With security checking on, a mapping of one symbol that is not
/// identifier-like to a dangerous replacement fails on every input in which
/// that symbol occurs in code (outside literals and comments). With the check
/// bypassed, the same input is transpiled, with every occurrence of the
/// symbol in code replaced.
pub proof fn lemma_dangerous_symbol_blocked(k: Seq<char>, r: Seq<char>, s: Seq<char>)
    requires
        k.len() > 0,
        !word_key(k),
        dangerous(r),
        exists|j: int, p: int| 0 <= j < split(s, 0, 0).0.len() && #[trigger] occurs_at(split(s, 0, 0).0[j], p, k),
    ensures
        transpiled(map![k => r], s, false) is None,
        transpiled(map![k => r], s, true) == Some(weave(
            split(s, 0, 0).0.map_values(|c: Seq<char>| replace_from(c, k, r, 0)),
            split(s, 0, 0).1,
        )),
{
    let parts = split(s, 0, 0);
    let (j, p) = choose|j: int, p: int| 0 <= j < parts.0.len() && #[trigger] occurs_at(parts.0[j], p, k);
    lemma_dangerous_match_reached(k, r, parts.0[j], 0, p);
    assert forall|q: int| 0 <= q < parts.0.len() implies rewrite(map![k => r], #[trigger] parts.0[q], 0)
        == replace_from(parts.0[q], k, r, 0) by {
        lemma_single_symbol_rewrite(k, r, parts.0[q], 0);
    }
    assert(parts.0.map_values(|c: Seq<char>| rewrite(map![k => r], c, 0))
        =~= parts.0.map_values(|c: Seq<char>| replace_from(c, k, r, 0)));
}

/// One compiled mapping entry.
struct Rule {
    key: Vec<char>,
    replacement: String,
    replacement_chars: Vec<char>,
    word: bool,
}

spec fn rule_ok(r: Rule, m: Map<Seq<char>, Seq<char>>, symbol_chars: Seq<char>) -> bool {
    &&& r.key@.len() > 0
    &&& r.replacement_chars@ == r.replacement@
    &&& r.word == word_key(r.key@)
    &&& m.contains_key(r.key@)
    &&& m[r.key@] == r.replacement@
    &&& forall|p: int| 0 <= p < r.key@.len() ==> symbol_chars.contains(#[trigger] r.key@[p])
}

spec fn sorted_desc(rules: Seq<Rule>) -> bool {
    forall|j: int, l: int| 0 <= j < l < rules.len() ==> #[trigger] rules[j].key@.len() >= #[trigger] rules[l].key@.len()
}

pub struct SymbolTranspiler {
    /// The entries, longest key first.
    rules: Vec<Rule>,
    /// Every character that occurs in some key, each once.
    symbol_chars: Vec<char>,
    mapping: Ghost<Map<Seq<char>, Seq<char>>>,
}

fn all_word_chars(k: &Vec<char>) -> (r: bool)
    ensures
        r == word_key(k@),
{
    let mut p: usize = 0;
    while p < k.len()
        invariant
            p <= k.len(),
            forall|q: int| 0 <= q < p ==> crate::text::is_word(#[trigger] k@[q]),
        decreases k.len() - p,
    {
        if !is_word_char(k[p]) {
            return false;
        }
        p = p + 1;
    }
    true
}

fn contains_char(v: &Vec<char>, c: char) -> (r: bool)
    ensures
        r == v@.contains(c),
{
    let mut p: usize = 0;
    while p < v.len()
        invariant
            p <= v.len(),
            forall|q: int| 0 <= q < p ==> v@[q] != c,
        decreases v.len() - p,
    {
        if v[p] == c {
            return true;
        }
        p = p + 1;
    }
    false
}

/// Adds to `set` each character of `chars` that it does not hold yet.
fn add_distinct(set: &mut Vec<char>, chars: &Vec<char>)
    requires
        old(set)@.no_duplicates(),
    ensures
        final(set)@.no_duplicates(),
        forall|c: char| #[trigger] final(set)@.contains(c) <==> old(set)@.contains(c) || chars@.contains(c),
{
    let mut p: usize = 0;
    while p < chars.len()
        invariant
            p <= chars.len(),
            set@.no_duplicates(),
            forall|c: char| #[trigger] set@.contains(c) <==> old(set)@.contains(c) || chars@.subrange(0, p as int).contains(c),
        decreases chars.len() - p,
    {
        let c = chars[p];
        let ghost before = set@;
        if !contains_char(set, c) {
            set.push(c);
            proof {
                assert forall|x: char| #[trigger] set@.contains(x) <==> before.contains(x) || x == c by {
                    if before.contains(x) {
                        let i = choose|i: int| 0 <= i < before.len() && before[i] == x;
                        assert(set@[i] == x);
                    }
                    if x == c {
                        assert(set@[before.len() as int] == c);
                    }
                }
            }
        }
        proof {
            assert(chars@.subrange(0, p + 1) =~= chars@.subrange(0, p as int).push(c));
            assert forall|x: char| chars@.subrange(0, p + 1).contains(x) <==> chars@.subrange(0, p as int).contains(x) || x == c by {
                let next = chars@.subrange(0, p + 1);
                if chars@.subrange(0, p as int).contains(x) {
                    let i = choose|i: int| 0 <= i < p && chars@.subrange(0, p as int)[i] == x;
                    assert(next[i] == x);
                }
                if x == c {
                    assert(next[p as int] == c);
                }
            }
        }
        p = p + 1;
    }
    assert(chars@.subrange(0, p as int) =~= chars@);
}

fn rule_fires(t: &Vec<char>, i: usize, rule: &Rule) -> (r: bool)
    requires
        i < t.len(),
        rule.key@.len() > 0,
        rule.word == word_key(rule.key@),
    ensures
        r == fires(t@, i as int, rule.key@),
{
    let n = rule.key.len();
    if n > t.len() - i {
        return false;
    }
    let mut p: usize = 0;
    while p < n
        invariant
            p <= n,
            n == rule.key.len(),
            i + n <= t.len(),
            forall|q: int| 0 <= q < p ==> t@[i + q] == rule.key@[q],
        decreases n - p,
    {
        if t[i + p] != rule.key[p] {
            assert(t@.subrange(i as int, i + n)[p as int] != rule.key@[p as int]);
            return false;
        }
        p = p + 1;
    }
    assert(t@.subrange(i as int, i + n) =~= rule.key@);
    if rule.word {
        if i > 0 && is_word_char(t[i - 1]) {
            return false;
        }
        if i + n < t.len() && is_word_char(t[i + n]) {
            return false;
        }
    }
    true
}

impl SymbolTranspiler {
    /// The configured mapping from symbol to replacement.
    pub closed spec fn mapping(&self) -> Map<Seq<char>, Seq<char>> {
        self.mapping@
    }

    /// The rules are exactly the mapping's entries, longest key first, and the
    /// precheck characters cover every key.
    pub closed spec fn wf(&self) -> bool {
        &&& forall|j: int| 0 <= j < self.rules.len() ==> rule_ok(#[trigger] self.rules@[j], self.mapping@, self.symbol_chars@)
        &&& sorted_desc(self.rules@)
        &&& self.symbol_chars@.no_duplicates()
        &&& forall|c: char| #[trigger] self.symbol_chars@.contains(c) ==> exists|k: Seq<char>|
            self.mapping@.contains_key(k) && k.contains(c)
        &&& forall|k: Seq<char>| #[trigger] self.mapping@.contains_key(k) ==> exists|j: int|
            0 <= j < self.rules.len() && self.rules@[j].key@ == k
    }

    /// A transpiler with an empty mapping, which leaves every input unchanged.
    pub fn new() -> (r: Self)
        ensures
            r.wf(),
            r.mapping() == Map::<Seq<char>, Seq<char>>::empty(),
    {
        SymbolTranspiler { rules: Vec::new(), symbol_chars: Vec::new(), mapping: Ghost(Map::empty()) }
    }

    /// Installs `mappings`, compiled into rules ordered longest key first.
    /// A mapping with an empty symbol is refused and the previous one is kept.
    pub fn configure(&mut self, mappings: AHashMap<String, String>) -> (r: Result<(), String>)
        requires
            old(self).wf(),
        ensures
            final(self).wf(),
            r is Ok <==> forall|k: Seq<char>| #[trigger] ahash_contents(mappings).contains_key(k) ==> k.len() > 0,
            r is Ok ==> final(self).mapping() == ahash_contents(mappings),
            r is Err ==> final(self).mapping() == old(self).mapping(),
            r is Err ==> r->Err_0@ == "Regex compilation failed: empty symbol in mapping"@,
    {
        let ghost m = ahash_contents(mappings);
        let entries = ahash_entries(mappings);
        let mut rules: Vec<Rule> = Vec::new();
        let mut symbol_chars: Vec<char> = Vec::new();
        let mut e: usize = 0;
        while e < entries.len()
            invariant
                e <= entries.len(),
                self.wf(),
                self.mapping() == old(self).mapping(),
                m == ahash_contents(mappings),
                forall|f: int| #![trigger entries[f]] 0 <= f < entries.len() ==> m.contains_key(entries[f].0@)
                    && m[entries[f].0@] == entries[f].1@,
                forall|j: int| 0 <= j < rules.len() ==> rule_ok(#[trigger] rules@[j], m, symbol_chars@),
                sorted_desc(rules@),
                symbol_chars@.no_duplicates(),
                forall|c: char| #[trigger] symbol_chars@.contains(c) ==> exists|k: Seq<char>|
                    m.contains_key(k) && k.contains(c),
                forall|f: int| #![trigger entries[f]] 0 <= f < e ==> exists|j: int|
                    0 <= j < rules.len() && rules@[j].key@ == entries[f].0@,
            decreases entries.len() - e,
        {
            if entries[e].0.as_str().is_empty() {
                assert(m.contains_key(entries[e as int].0@) && entries[e as int].0@.len() == 0);
                return Err(String::from_str("Regex compilation failed: empty symbol in mapping"));
            }
            let key = to_chars(entries[e].0.as_str());
            let replacement = entries[e].1.clone();
            let replacement_chars = to_chars(replacement.as_str());
            let word = all_word_chars(&key);
            let ghost old_chars = symbol_chars@;
            add_distinct(&mut symbol_chars, &key);
            proof {
                assert forall|c: char| #[trigger] symbol_chars@.contains(c) implies exists|k: Seq<char>|
                    m.contains_key(k) && k.contains(c) by {
                    if !old_chars.contains(c) {
                        assert(m.contains_key(entries[e as int].0@) && entries[e as int].0@.contains(c));
                    }
                }
                assert forall|j: int, p: int| 0 <= j < rules.len() && 0 <= p < rules@[j].key@.len()
                    implies symbol_chars@.contains(#[trigger] rules@[j].key@[p]) by {
                    assert(rule_ok(rules@[j], m, old_chars));
                }
                assert forall|p: int| 0 <= p < key@.len() implies symbol_chars@.contains(#[trigger] key@[p]) by {
                    assert(key@.contains(key@[p]));
                }
            }
            let n = key.len();
            let mut pos: usize = 0;
            while pos < rules.len() && rules[pos].key.len() >= n
                invariant
                    pos <= rules.len(),
                    forall|j: int| 0 <= j < pos ==> #[trigger] rules@[j].key@.len() >= n,
                decreases rules.len() - pos,
            {
                pos = pos + 1;
            }
            let ghost old_rules = rules@;
            let rule = Rule { key, replacement, replacement_chars, word };
            assert(rule_ok(rule, m, symbol_chars@));
            rules.insert(pos, rule);
            proof {
                assert forall|j: int, l: int| 0 <= j < l < rules.len()
                    implies #[trigger] rules@[j].key@.len() >= #[trigger] rules@[l].key@.len() by {
                    if l < pos {
                    } else if l == pos {
                        assert(old_rules[j].key@.len() >= n);
                    } else if j < pos {
                        assert(old_rules[j].key@.len() >= old_rules[l - 1].key@.len());
                    } else if j == pos {
                        assert(old_rules[l - 1].key@.len() < n);
                    } else {
                        assert(old_rules[j - 1].key@.len() >= old_rules[l - 1].key@.len());
                    }
                }
                assert forall|f: int| #![trigger entries[f]] 0 <= f < e + 1 implies exists|j: int|
                    0 <= j < rules.len() && rules@[j].key@ == entries[f].0@ by {
                    if f == e {
                        assert(rules@[pos as int].key@ == entries[f].0@);
                    } else {
                        let j0 = choose|j: int| 0 <= j < old_rules.len() && old_rules[j].key@ == entries[f].0@;
                        if j0 < pos {
                            assert(rules@[j0] == old_rules[j0]);
                        } else {
                            assert(rules@[j0 + 1] == old_rules[j0]);
                        }
                    }
                }
                assert forall|j: int| 0 <= j < rules.len() implies rule_ok(#[trigger] rules@[j], m, symbol_chars@) by {
                    if j < pos {
                        assert(rules@[j] == old_rules[j]);
                    } else if j > pos {
                        assert(rules@[j] == old_rules[j - 1]);
                    }
                }
            }
            e = e + 1;
        }
        proof {
            assert forall|k: Seq<char>| #[trigger] m.contains_key(k) implies exists|j: int|
                0 <= j < rules.len() && rules@[j].key@ == k by {
                let f = choose|f: int| 0 <= f < entries.len() && entries[f].0@ == k;
                assert(entries[f].0@ == k);
            }
            assert forall|k: Seq<char>| #[trigger] m.contains_key(k) implies k.len() > 0 by {
                let j = choose|j: int| 0 <= j < rules.len() && rules@[j].key@ == k;
                assert(rule_ok(rules@[j], m, symbol_chars@));
            }
        }
        self.rules = rules;
        self.symbol_chars = symbol_chars;
        self.mapping = Ghost(m);
        Ok(())
    }

    /// The index of the rule whose key is the longest match at `i`, if any.
    fn match_at(&self, t: &Vec<char>, i: usize) -> (r: Option<usize>)
        requires
            self.wf(),
            i < t.len(),
        ensures
            r is Some ==> r->0 < self.rules.len() && best_at(self.mapping@, t@, i as int, self.rules@[r->0 as int].key@),
            r is None ==> !has_match(self.mapping@, t@, i as int),
    {
        let ghost m = self.mapping@;
        let mut j: usize = 0;
        while j < self.rules.len()
            invariant
                self.wf(),
                m == self.mapping@,
                i < t.len(),
                j <= self.rules.len(),
                forall|l: int| 0 <= l < j ==> !fires(t@, i as int, #[trigger] self.rules@[l].key@),
            decreases self.rules.len() - j,
        {
            assert(rule_ok(self.rules@[j as int], m, self.symbol_chars@));
            if rule_fires(t, i, &self.rules[j]) {
                proof {
                    assert forall|k2: Seq<char>| #[trigger] m.contains_key(k2) && fires(t@, i as int, k2)
                        implies k2.len() <= self.rules@[j as int].key@.len() by {
                        let l = choose|l: int| 0 <= l < self.rules.len() && self.rules@[l].key@ == k2;
                        if l < j {
                            assert(!fires(t@, i as int, self.rules@[l].key@));
                        } else if l > j {
                            assert(self.rules@[j as int].key@.len() >= self.rules@[l].key@.len());
                        }
                    }
                }
                return Some(j);
            }
            j = j + 1;
        }
        proof {
            assert forall|k: Seq<char>| !best_at(m, t@, i as int, k) by {
                if m.contains_key(k) {
                    let l = choose|l: int| 0 <= l < self.rules.len() && self.rules@[l].key@ == k;
                    assert(!fires(t@, i as int, self.rules@[l].key@));
                }
            }
        }
        None
    }

    proof fn lemma_first_firing(&self, t: Seq<char>, i: int, j: int, l: int)
        requires
            self.wf(),
            0 <= j <= l < self.rules.len(),
            fires(t, i, self.rules@[l].key@),
            forall|q: int| 0 <= q < j ==> !fires(t, i, #[trigger] self.rules@[q].key@),
        ensures
            has_match(self.mapping@, t, i),
        decreases l - j,
    {
        let m = self.mapping@;
        let kj = self.rules@[j].key@;
        if fires(t, i, kj) {
            assert(rule_ok(self.rules@[j], m, self.symbol_chars@));
            assert forall|k2: Seq<char>| #[trigger] m.contains_key(k2) && fires(t, i, k2) implies k2.len() <= kj.len() by {
                let q = choose|q: int| 0 <= q < self.rules.len() && self.rules@[q].key@ == k2;
                if q < j {
                    assert(!fires(t, i, self.rules@[q].key@));
                } else if q > j {
                    assert(self.rules@[j].key@.len() >= self.rules@[q].key@.len());
                }
            }
            assert(best_at(m, t, i, kj));
        } else {
            self.lemma_first_firing(t, i, j + 1, l);
        }
    }

    /// Longest match wins: where two keys of the mapping match at the same
    /// position, whatever their boundary rules, the key chosen there is at least
    /// as long as the longer of them, so never the shorter one, and rewriting
    /// from that position starts with the chosen key's replacement.
    pub proof fn lemma_longest_key_wins(&self, t: Seq<char>, i: int, k1: Seq<char>, k2: Seq<char>)
        requires
            self.wf(),
            0 <= i < t.len(),
            self.mapping().contains_key(k1),
            self.mapping().contains_key(k2),
            fires(t, i, k1),
            fires(t, i, k2),
            k1.len() < k2.len(),
        ensures
            has_match(self.mapping(), t, i),
            best_key(self.mapping(), t, i) != k1,
            best_key(self.mapping(), t, i).len() >= k2.len(),
            rewrite(self.mapping(), t, i) == self.mapping()[best_key(self.mapping(), t, i)]
                + rewrite(self.mapping(), t, i + best_key(self.mapping(), t, i).len()),
    {
        let l = choose|l: int| 0 <= l < self.rules.len() && self.rules@[l].key@ == k2;
        self.lemma_first_firing(t, i, 0, l);
    }

    /// Cheap precheck: whether some character of `t` occurs in some key.
    /// When it does not, no key can match anywhere in `t`.
    fn contains_symbols(&self, t: &Vec<char>) -> (r: bool)
        requires
            self.wf(),
        ensures
            r == exists|q: int| 0 <= q < t.len() && self.symbol_chars@.contains(#[trigger] t@[q]),
            r == exists|q: int, k: Seq<char>| 0 <= q < t.len() && self.mapping@.contains_key(k)
                && #[trigger] k.contains(t@[q]),
    {
        let mut p: usize = 0;
        while p < t.len()
            invariant
                self.wf(),
                p <= t.len(),
                forall|q: int| 0 <= q < p ==> !self.symbol_chars@.contains(#[trigger] t@[q]),
            decreases t.len() - p,
        {
            if contains_char(&self.symbol_chars, t[p]) {
                proof {
                    let k = choose|k: Seq<char>| self.mapping@.contains_key(k) && k.contains(t@[p as int]);
                    assert(self.mapping@.contains_key(k) && k.contains(t@[p as int]));
                }
                return true;
            }
            p = p + 1;
        }
        proof {
            assert forall|q: int, k: Seq<char>| 0 <= q < t.len() && self.mapping@.contains_key(k)
                implies !#[trigger] k.contains(t@[q]) by {
                let l = choose|l: int| 0 <= l < self.rules.len() && self.rules@[l].key@ == k;
                assert(rule_ok(self.rules@[l], self.mapping@, self.symbol_chars@));
                if k.contains(t@[q]) {
                    let i = choose|i: int| 0 <= i < k.len() && k[i] == t@[q];
                    assert(self.symbol_chars@.contains(k[i]));
                }
            }
        }
        false
    }

    /// A key can only match where its first character stands.
    proof fn lemma_no_symbol_chars(&self, t: Seq<char>)
        requires
            self.wf(),
            forall|q: int| 0 <= q < t.len() ==> !self.symbol_chars@.contains(#[trigger] t[q]),
        ensures
            forall|p: int, k: Seq<char>| #[trigger] self.mapping@.contains_key(k) ==> !#[trigger] fires(t, p, k),
    {
        assert forall|q: int, k: Seq<char>| #[trigger] self.mapping@.contains_key(k)
            implies !#[trigger] fires(t, q, k) by {
            let l = choose|l: int| 0 <= l < self.rules.len() && self.rules@[l].key@ == k;
            assert(rule_ok(self.rules@[l], self.mapping@, self.symbol_chars@));
            if fires(t, q, k) {
                assert(t.subrange(q, q + k.len())[0] == k[0]);
                assert(self.symbol_chars@.contains(k[0]));
            }
        }
    }

    /// Rewrites one code region. `None` when security checking is on and a dangerous
    /// replacement would be applied.
    fn substitute(&self, t: &Vec<char>, detector: &ThreatDetector, bypass_security: bool) -> (r: Option<Vec<char>>)
        requires
            self.wf(),
            detector.wf(),
        ensures
            r is None <==> !bypass_security && hits_danger(self.mapping@, t@, 0),
            r is Some ==> r->0@ == rewrite(self.mapping@, t@, 0),
    {
        let ghost m = self.mapping@;
        if !self.contains_symbols(t) {
            proof {
                self.lemma_no_symbol_chars(t@);
                lemma_rewrite_no_match(m, t@, 0);
                assert(t@.subrange(0, t.len() as int) =~= t@);
            }
            let mut out: Vec<char> = Vec::new();
            append_chars(&mut out, t);
            assert(out@ =~= t@);
            return Some(out);
        }
        let mut out: Vec<char> = Vec::new();
        let mut i: usize = 0;
        while i < t.len()
            invariant
                self.wf(),
                detector.wf(),
                m == self.mapping@,
                i <= t.len(),
                rewrite(m, t@, 0) == out@ + rewrite(m, t@, i as int),
                !bypass_security ==> hits_danger(m, t@, 0) == hits_danger(m, t@, i as int),
            decreases t.len() - i,
        {
            match self.match_at(t, i) {
                Some(j) => {
                    let rule = &self.rules[j];
                    proof {
                        let k = self.rules@[j as int].key@;
                        lemma_best_unique(m, t@, i as int, k, crate::matching::best_key(m, t@, i as int));
                        assert(rule_ok(self.rules@[j as int], m, self.symbol_chars@));
                    }
                    if !bypass_security && detector.is_dangerous(rule.replacement.as_str()) {
                        return None;
                    }
                    let ghost before = out@;
                    append_chars(&mut out, &rule.replacement_chars);
                    assert(before + rewrite(m, t@, i as int) =~= out@ + rewrite(m, t@, i + rule.key.len()));
                    i = i + rule.key.len();
                },
                None => {
                    let ghost before = out@;
                    out.push(t[i]);
                    assert(before + rewrite(m, t@, i as int) =~= out@ + rewrite(m, t@, i + 1));
                    i = i + 1;
                },
            }
        }
        assert(out@ + rewrite(m, t@, i as int) =~= out@);
        Some(out)
    }

    /// Protects literals and comments, rewrites the code regions, and restores
    /// the literals. Fails, with no partial output, when security checking is on and a
    /// dangerous replacement would be applied.
    pub fn transpile(&mut self, source: &str, threat_detector: &ThreatDetector, bypass_security: bool) -> (r: Result<String, String>)
        requires
            old(self).wf(),
            threat_detector.wf(),
        ensures
            *final(self) == *old(self),
            r is Ok <==> transpiled(old(self).mapping(), source@, bypass_security) is Some,
            r is Ok ==> r->Ok_0@ == transpiled(old(self).mapping(), source@, bypass_security)->0,
            r is Err ==> r->Err_0@ == "Security: Dangerous pattern detected during transpilation"@,
    {
        let ghost m = self.mapping@;
        let chars = to_chars(source);
        if !self.contains_symbols(&chars) {
            proof {
                let parts = split(source@, 0, 0);
                crate::literals::lemma_split_chars(source@, 0, 0);
                assert forall|j: int, p: int, k: Seq<char>| 0 <= j < parts.0.len() && #[trigger] m.contains_key(k)
                    implies !#[trigger] fires(parts.0[j], p, k) by {
                    assert forall|q: int| 0 <= q < parts.0[j].len()
                        implies !self.symbol_chars@.contains(#[trigger] parts.0[j][q]) by {
                        assert(source@.contains(parts.0[j][q]));
                    }
                    self.lemma_no_symbol_chars(parts.0[j]);
                }
                lemma_no_match_identity(m, source@, bypass_security);
            }
            return Ok(chars_to_string(&chars));
        }
        let protected = Protected::protect(&chars);
        let ghost parts = split(source@, 0, 0);
        let mut code: Vec<Vec<char>> = Vec::new();
        let mut k: usize = 0;
        while k < protected.code.len()
            invariant
                self.wf(),
                threat_detector.wf(),
                m == self.mapping@,
                m == old(self).mapping(),
                parts == split(source@, 0, 0),
                k <= protected.code.len(),
                protected.view_parts() == parts,
                views(code@) == parts.0.take(k as int).map_values(|c: Seq<char>| rewrite(m, c, 0)),
                forall|j: int| 0 <= j < k ==> !(!bypass_security && hits_danger(m, #[trigger] parts.0[j], 0)),
            decreases protected.code.len() - k,
        {
            assert(protected.code@[k as int]@ == parts.0[k as int]);
            match self.substitute(&protected.code[k], threat_detector, bypass_security) {
                Some(region) => {
                    let ghost before = views(code@);
                    let ghost done = region@;
                    code.push(region);
                    assert(views(code@) =~= before.push(done));
                    assert(parts.0.take(k + 1).map_values(|c: Seq<char>| rewrite(m, c, 0))
                        =~= parts.0.take(k as int).map_values(|c: Seq<char>| rewrite(m, c, 0)).push(rewrite(m, parts.0[k as int], 0)));
                },
                None => {
                    assert(views(protected.code@).len() == protected.code.len());
                    assert(hits_danger(m, parts.0[k as int], 0));
                    assert(m == old(self).mapping());
                    assert(parts == split(source@, 0, 0));
                    assert(exists|j: int| 0 <= j < parts.0.len() && hits_danger(m, #[trigger] parts.0[j], 0));
                    return Err(String::from_str("Security: Dangerous pattern detected during transpilation"));
                },
            }
            k = k + 1;
        }
        assert(parts.0.take(k as int) =~= parts.0);
        match restore(&code, &protected.literals) {
            Ok(out) => Ok(chars_to_string(&out)),
            Err(e) => Err(e),
        }
    }
}

} // verus!

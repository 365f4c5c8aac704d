//! Literal protection: splits source text into code regions and protected
//! regions (string literals and `#` line comments), and weaves them back.
//!
//! The protected text is kept as `code[0], <0>, code[1], <1>, ..., code[n]`:
//! placeholder `k` stands between `code[k]` and `code[k + 1]` and holds
//! `literals[k]`. A placeholder is a position in this sequence, never text, so
//! nothing in a code region or in a replacement can be mistaken for one.
//!
//! Lexical rules: a `#` comment runs to the end of the line (the newline stays
//! code). A string starts at a quote, optionally preceded by one or two prefix
//! letters (`r`, `b`, `u`, `f`, either case) that do not continue an identifier.
//! Triple-quoted strings may span lines; single-quoted ones stop before a
//! newline. A backslash escapes the next character. A literal left unterminated
//! is protected up to where it is cut off: the end of the input, or, for a
//! single-quoted string, the end of its line.
use vstd::prelude::*;
use vstd::string::StringExecFns;
use crate::text::{is_word, is_word_char};

verus! {

pub open spec fn is_quote(c: char) -> bool {
    c == '\'' || c == '"'
}

pub open spec fn is_prefix_letter(c: char) -> bool {
    c == 'r' || c == 'b' || c == 'u' || c == 'f' || c == 'R' || c == 'B' || c == 'U' || c == 'F'
}

/// Index of the first newline at or after `k`, or the length of `s`.
pub open spec fn line_end(s: Seq<char>, k: int) -> int
    decreases s.len() - k,
{
    if k < 0 || k >= s.len() {
        s.len() as int
    } else if s[k] == '\n' {
        k
    } else {
        line_end(s, k + 1)
    }
}

/// End (exclusive) of a single-quoted string body scanned from `k`, closed by `q`.
pub open spec fn single_end(s: Seq<char>, q: char, k: int) -> int
    decreases s.len() - k,
{
    if k < 0 || k >= s.len() {
        s.len() as int
    } else if s[k] == '\\' {
        if k + 1 >= s.len() {
            s.len() as int
        } else {
            single_end(s, q, k + 2)
        }
    } else if s[k] == q {
        k + 1
    } else if s[k] == '\n' {
        k
    } else {
        single_end(s, q, k + 1)
    }
}

/// End (exclusive) of a triple-quoted string body scanned from `k`, closed by `qqq`.
pub open spec fn triple_end(s: Seq<char>, q: char, k: int) -> int
    decreases s.len() - k,
{
    if k < 0 || k >= s.len() {
        s.len() as int
    } else if s[k] == '\\' {
        if k + 1 >= s.len() {
            s.len() as int
        } else {
            triple_end(s, q, k + 2)
        }
    } else if k + 3 <= s.len() && s[k] == q && s[k + 1] == q && s[k + 2] == q {
        k + 3
    } else {
        triple_end(s, q, k + 1)
    }
}

/// End of the string whose opening quote is at `j`; a triple quote wins over a single one.
pub open spec fn quote_end(s: Seq<char>, j: int) -> int {
    if j + 2 < s.len() && s[j + 1] == s[j] && s[j + 2] == s[j] {
        triple_end(s, s[j], j + 3)
    } else {
        single_end(s, s[j], j + 1)
    }
}

/// A prefix letter at `i` does not continue an identifier.
pub open spec fn prefix_allowed(s: Seq<char>, i: int) -> bool {
    i == 0 || !is_word(s[i - 1])
}

/// End of the literal or comment that starts at `i`, or `i` when none starts there.
pub open spec fn literal_end(s: Seq<char>, i: int) -> int {
    if i < 0 || i >= s.len() {
        i
    } else if s[i] == '#' {
        line_end(s, i)
    } else if is_quote(s[i]) {
        quote_end(s, i)
    } else if prefix_allowed(s, i) && is_prefix_letter(s[i]) && i + 1 < s.len() && is_quote(s[i + 1]) {
        quote_end(s, i + 1)
    } else if prefix_allowed(s, i) && is_prefix_letter(s[i]) && i + 2 < s.len()
        && is_prefix_letter(s[i + 1]) && is_quote(s[i + 2]) {
        quote_end(s, i + 2)
    } else {
        i
    }
}

/// Scanning from `i`, with the current code region started at `c`: the code
/// regions and the protected regions, in textual order.
pub open spec fn split(s: Seq<char>, c: int, i: int) -> (Seq<Seq<char>>, Seq<Seq<char>>)
    decreases s.len() - i,
{
    if i < 0 || i >= s.len() {
        (seq![s.subrange(c, s.len() as int)], seq![])
    } else if i < literal_end(s, i) <= s.len() {
        let e = literal_end(s, i);
        let rest = split(s, e, e);
        (seq![s.subrange(c, i)] + rest.0, seq![s.subrange(i, e)] + rest.1)
    } else {
        split(s, c, i + 1)
    }
}

/// Code regions interleaved with the protected regions they surround.
pub open spec fn weave(code: Seq<Seq<char>>, literals: Seq<Seq<char>>) -> Seq<char>
    decreases literals.len(),
{
    if literals.len() == 0 {
        if code.len() > 0 { code[0] } else { seq![] }
    } else {
        code[0] + literals[0] + weave(code.drop_first(), literals.drop_first())
    }
}

/// The text of each vector of characters.
pub open spec fn views(v: Seq<Vec<char>>) -> Seq<Seq<char>> {
    v.map_values(|x: Vec<char>| x@)
}

/// Source text with its literals replaced by placeholders.
pub struct Protected {
    /// The code regions; one more than there are placeholders.
    pub code: Vec<Vec<char>>,
    /// The protected text of each placeholder, in textual order.
    pub literals: Vec<Vec<char>>,
}


pub proof fn lemma_line_end_bounds(s: Seq<char>, k: int)
    requires
        0 <= k <= s.len(),
    ensures
        k <= line_end(s, k) <= s.len(),
        k < s.len() && s[k] != '\n' ==> k < line_end(s, k),
    decreases s.len() - k,
{
    if k < s.len() && s[k] != '\n' {
        lemma_line_end_bounds(s, k + 1);
    }
}

pub proof fn lemma_single_end_bounds(s: Seq<char>, q: char, k: int)
    requires
        0 <= k <= s.len(),
    ensures
        k <= single_end(s, q, k) <= s.len(),
    decreases s.len() - k,
{
    if k < s.len() {
        if s[k] == '\\' {
            if k + 1 < s.len() {
                lemma_single_end_bounds(s, q, k + 2);
            }
        } else if s[k] != q && s[k] != '\n' {
            lemma_single_end_bounds(s, q, k + 1);
        }
    }
}

pub proof fn lemma_triple_end_bounds(s: Seq<char>, q: char, k: int)
    requires
        0 <= k <= s.len(),
    ensures
        k <= triple_end(s, q, k) <= s.len(),
    decreases s.len() - k,
{
    if k < s.len() {
        if s[k] == '\\' {
            if k + 1 < s.len() {
                lemma_triple_end_bounds(s, q, k + 2);
            }
        } else if !(k + 3 <= s.len() && s[k] == q && s[k + 1] == q && s[k + 2] == q) {
            lemma_triple_end_bounds(s, q, k + 1);
        }
    }
}

pub proof fn lemma_quote_end_bounds(s: Seq<char>, j: int)
    requires
        0 <= j < s.len(),
    ensures
        j < quote_end(s, j) <= s.len(),
{
    if j + 2 < s.len() && s[j + 1] == s[j] && s[j + 2] == s[j] {
        lemma_triple_end_bounds(s, s[j], j + 3);
    } else {
        lemma_single_end_bounds(s, s[j], j + 1);
    }
}

pub proof fn lemma_literal_end_bounds(s: Seq<char>, i: int)
    requires
        0 <= i < s.len(),
    ensures
        i <= literal_end(s, i) <= s.len(),
{
    if s[i] == '#' {
        lemma_line_end_bounds(s, i);
    } else if is_quote(s[i]) {
        lemma_quote_end_bounds(s, i);
    } else if prefix_allowed(s, i) && is_prefix_letter(s[i]) && i + 1 < s.len() && is_quote(s[i + 1]) {
        lemma_quote_end_bounds(s, i + 1);
    } else if prefix_allowed(s, i) && is_prefix_letter(s[i]) && i + 2 < s.len()
        && is_prefix_letter(s[i + 1]) && is_quote(s[i + 2]) {
        lemma_quote_end_bounds(s, i + 2);
    }
}

/// Splitting loses nothing: the regions, woven back together, are the text
/// they came from, and there is one more code region than protected regions.
pub proof fn lemma_split_weave(s: Seq<char>, c: int, i: int)
    requires
        0 <= c <= i <= s.len(),
    ensures
        split(s, c, i).0.len() == split(s, c, i).1.len() + 1,
        weave(split(s, c, i).0, split(s, c, i).1) == s.subrange(c, s.len() as int),
    decreases s.len() - i,
{
    if i < s.len() {
        lemma_literal_end_bounds(s, i);
        let e = literal_end(s, i);
        if i < e {
            lemma_split_weave(s, e, e);
            let rest = split(s, e, e);
            let parts = split(s, c, i);
            assert(parts.0.drop_first() =~= rest.0);
            assert(parts.1.drop_first() =~= rest.1);
            assert(s.subrange(c, s.len() as int) =~= s.subrange(c, i) + s.subrange(i, e) + s.subrange(e, s.len() as int));
        } else {
            lemma_split_weave(s, c, i + 1);
        }
    }
}

/// Every character of a code region is a character of the text it came from.
pub proof fn lemma_split_chars(s: Seq<char>, c: int, i: int)
    requires
        0 <= c <= i <= s.len(),
    ensures
        forall|j: int, q: int| 0 <= j < split(s, c, i).0.len() && 0 <= q < split(s, c, i).0[j].len()
            ==> s.contains(#[trigger] split(s, c, i).0[j][q]),
    decreases s.len() - i,
{
    if i < s.len() {
        lemma_literal_end_bounds(s, i);
        let e = literal_end(s, i);
        if i < e {
            lemma_split_chars(s, e, e);
            let rest = split(s, e, e);
            let parts = split(s, c, i);
            assert forall|j: int, q: int| 0 <= j < parts.0.len() && 0 <= q < parts.0[j].len()
                implies s.contains(#[trigger] parts.0[j][q]) by {
                if j == 0 {
                    assert(s[c + q] == parts.0[j][q]);
                } else {
                    assert(parts.0[j] == rest.0[j - 1]);
                }
            }
        } else {
            lemma_split_chars(s, c, i + 1);
            assert(split(s, c, i) == split(s, c, i + 1));
        }
    } else {
        let parts = split(s, c, i);
        assert forall|j: int, q: int| 0 <= j < parts.0.len() && 0 <= q < parts.0[j].len()
            implies s.contains(#[trigger] parts.0[j][q]) by {
            assert(s[c + q] == parts.0[j][q]);
        }
    }
}

/// Where protected region `k` starts in `weave(code, literals)`: after the
/// code regions `0..=k` and the protected regions `0..k`.
pub open spec fn literal_offset(code: Seq<Seq<char>>, literals: Seq<Seq<char>>, k: int) -> int
    decreases k,
{
    if k <= 0 {
        code[0].len() as int
    } else {
        code[0].len() + literals[0].len() + literal_offset(code.drop_first(), literals.drop_first(), k - 1)
    }
}

proof fn lemma_weave_len(code: Seq<Seq<char>>, literals: Seq<Seq<char>>, k: int)
    requires
        code.len() == literals.len() + 1,
        0 <= k < literals.len(),
    ensures
        0 <= literal_offset(code, literals, k),
        literal_offset(code, literals, k) + literals[k].len() <= weave(code, literals).len(),
        weave(code, literals).subrange(literal_offset(code, literals, k), literal_offset(code, literals, k) + literals[k].len())
            == literals[k],
    decreases k,
{
    let rest = weave(code.drop_first(), literals.drop_first());
    let w = weave(code, literals);
    assert(w == code[0] + literals[0] + rest);
    if k == 0 {
        assert(w.subrange(code[0].len() as int, (code[0].len() + literals[0].len()) as int) =~= literals[0]);
    } else {
        lemma_weave_len(code.drop_first(), literals.drop_first(), k - 1);
        let shift = (code[0].len() + literals[0].len()) as int;
        let o = literal_offset(code.drop_first(), literals.drop_first(), k - 1);
        assert(literals.drop_first()[k - 1] == literals[k]);
        assert(w.subrange(shift + o, shift + o + literals[k].len()) =~= rest.subrange(o, o + literals[k].len()));
    }
}

/// Restoration is exact. Splitting a text and weaving the regions back gives
/// the text; each protected region is the original text at its original
/// offset; and whatever the code regions are rewritten to, weaving puts each
/// protected region back unchanged, right after the rewritten code before it.
pub proof fn lemma_restoration_round_trip(s: Seq<char>, rewritten: Seq<Seq<char>>)
    requires
        rewritten.len() == split(s, 0, 0).0.len(),
    ensures
        weave(split(s, 0, 0).0, split(s, 0, 0).1) == s,
        forall|k: int| #![trigger split(s, 0, 0).1[k]] 0 <= k < split(s, 0, 0).1.len() ==> {
            let code = split(s, 0, 0).0;
            let literals = split(s, 0, 0).1;
            let o = literal_offset(code, literals, k);
            let o2 = literal_offset(rewritten, literals, k);
            &&& s.subrange(o, o + literals[k].len()) == literals[k]
            &&& weave(rewritten, literals).subrange(o2, o2 + literals[k].len()) == literals[k]
        },
{
    lemma_split_weave(s, 0, 0);
    assert(s.subrange(0, s.len() as int) =~= s);
    let code = split(s, 0, 0).0;
    let literals = split(s, 0, 0).1;
    assert forall|k: int| #![trigger literals[k]] 0 <= k < literals.len() implies {
        let o = literal_offset(code, literals, k);
        let o2 = literal_offset(rewritten, literals, k);
        &&& s.subrange(o, o + literals[k].len()) == literals[k]
        &&& weave(rewritten, literals).subrange(o2, o2 + literals[k].len()) == literals[k]
    } by {
        lemma_weave_len(code, literals, k);
        lemma_weave_len(rewritten, literals, k);
    }
}

fn scan_line_end(s: &Vec<char>, k: usize) -> (r: usize)
    requires
        k <= s.len(),
    ensures
        r == line_end(s@, k as int),
{
    let mut j = k;
    while j < s.len() && s[j] != '\n'
        invariant
            k <= j <= s.len(),
            line_end(s@, k as int) == line_end(s@, j as int),
        decreases s.len() - j,
    {
        j = j + 1;
    }
    j
}

fn scan_single_end(s: &Vec<char>, q: char, k: usize) -> (r: usize)
    requires
        k <= s.len(),
    ensures
        r == single_end(s@, q, k as int),
{
    let mut j = k;
    while j < s.len()
        invariant
            k <= j <= s.len(),
            single_end(s@, q, k as int) == single_end(s@, q, j as int),
        decreases s.len() - j,
    {
        if s[j] == '\\' {
            if s.len() - j <= 1 {
                return s.len();
            }
            j = j + 2;
        } else if s[j] == q {
            return j + 1;
        } else if s[j] == '\n' {
            return j;
        } else {
            j = j + 1;
        }
    }
    s.len()
}

fn scan_triple_end(s: &Vec<char>, q: char, k: usize) -> (r: usize)
    requires
        k <= s.len(),
    ensures
        r == triple_end(s@, q, k as int),
{
    let mut j = k;
    while j < s.len()
        invariant
            k <= j <= s.len(),
            triple_end(s@, q, k as int) == triple_end(s@, q, j as int),
        decreases s.len() - j,
    {
        if s[j] == '\\' {
            if s.len() - j <= 1 {
                return s.len();
            }
            j = j + 2;
        } else if s.len() - j >= 3 && s[j] == q && s[j + 1] == q && s[j + 2] == q {
            return j + 3;
        } else {
            j = j + 1;
        }
    }
    s.len()
}

fn scan_quote_end(s: &Vec<char>, j: usize) -> (r: usize)
    requires
        j < s.len(),
    ensures
        r == quote_end(s@, j as int),
{
    let q = s[j];
    if s.len() - j > 2 && s[j + 1] == q && s[j + 2] == q {
        scan_triple_end(s, q, j + 3)
    } else {
        scan_single_end(s, q, j + 1)
    }
}

fn quote_char(c: char) -> (r: bool)
    ensures
        r == is_quote(c),
{
    c == '\'' || c == '"'
}

fn prefix_letter(c: char) -> (r: bool)
    ensures
        r == is_prefix_letter(c),
{
    c == 'r' || c == 'b' || c == 'u' || c == 'f' || c == 'R' || c == 'B' || c == 'U' || c == 'F'
}

/// End of the literal or comment starting at `i`, or `i` when none starts there.
pub fn literal_end_at(s: &Vec<char>, i: usize) -> (r: usize)
    requires
        i < s.len(),
    ensures
        r == literal_end(s@, i as int),
        i <= r <= s.len(),
{
    proof {
        lemma_literal_end_bounds(s@, i as int);
    }
    if s[i] == '#' {
        return scan_line_end(s, i);
    }
    if quote_char(s[i]) {
        return scan_quote_end(s, i);
    }
    let allowed = i == 0 || !is_word_char(s[i - 1]);
    if allowed && prefix_letter(s[i]) && s.len() - i > 1 && quote_char(s[i + 1]) {
        return scan_quote_end(s, i + 1);
    }
    if allowed && prefix_letter(s[i]) && s.len() - i > 2 && prefix_letter(s[i + 1])
        && quote_char(s[i + 2]) {
        return scan_quote_end(s, i + 2);
    }
    i
}

/// The characters of `s` from `a` up to, not including, `b`.
pub fn copy_range(s: &Vec<char>, a: usize, b: usize) -> (r: Vec<char>)
    requires
        a <= b <= s.len(),
    ensures
        r@ == s@.subrange(a as int, b as int),
{
    let mut r: Vec<char> = Vec::new();
    let mut j = a;
    while j < b
        invariant
            a <= j <= b <= s.len(),
            r@ == s@.subrange(a as int, j as int),
        decreases b - j,
    {
        r.push(s[j]);
        j = j + 1;
        assert(r@ =~= s@.subrange(a as int, j as int));
    }
    r
}

/// Appends the characters of `t` to `out`.
pub fn append_chars(out: &mut Vec<char>, t: &Vec<char>)
    ensures
        final(out)@ == old(out)@ + t@,
{
    let mut j: usize = 0;
    while j < t.len()
        invariant
            j <= t.len(),
            out@ == old(out)@ + t@.subrange(0, j as int),
        decreases t.len() - j,
    {
        out.push(t[j]);
        j = j + 1;
        assert(out@ =~= old(out)@ + t@.subrange(0, j as int));
    }
    assert(t@.subrange(0, t.len() as int) =~= t@);
}

impl Protected {
    /// The regions as text: code regions first, protected regions second.
    pub open spec fn view_parts(&self) -> (Seq<Seq<char>>, Seq<Seq<char>>) {
        (views(self.code@), views(self.literals@))
    }

    /// Replaces every literal and comment of `source` by a placeholder, scanning
    /// left to right; the first rule that matches at a position wins.
    pub fn protect(source: &Vec<char>) -> (r: Protected)
        ensures
            r.view_parts() == split(source@, 0, 0),
            r.code.len() == r.literals.len() + 1,
            weave(r.view_parts().0, r.view_parts().1) == source@,
    {
        let ghost s = source@;
        let mut code: Vec<Vec<char>> = Vec::new();
        let mut literals: Vec<Vec<char>> = Vec::new();
        let mut c: usize = 0;
        let mut i: usize = 0;
        while i < source.len()
            invariant
                0 <= c <= i <= source.len(),
                s == source@,
                split(s, 0, 0) == (views(code@) + split(s, c as int, i as int).0,
                    views(literals@) + split(s, c as int, i as int).1),
            decreases source.len() - i,
        {
            let e = literal_end_at(source, i);
            if i < e {
                let chunk = copy_range(source, c, i);
                let lit = copy_range(source, i, e);
                let ghost old_code = views(code@);
                let ghost old_lits = views(literals@);
                let ghost rest = split(s, e as int, e as int);
                code.push(chunk);
                literals.push(lit);
                assert(views(code@) =~= old_code.push(s.subrange(c as int, i as int)));
                assert(views(literals@) =~= old_lits.push(s.subrange(i as int, e as int)));
                assert(views(code@) + rest.0 =~= old_code + split(s, c as int, i as int).0);
                assert(views(literals@) + rest.1 =~= old_lits + split(s, c as int, i as int).1);
                c = e;
                i = e;
            } else {
                i = i + 1;
            }
        }
        let chunk = copy_range(source, c, source.len());
        let ghost old_code = views(code@);
        code.push(chunk);
        assert(views(code@) =~= old_code.push(s.subrange(c as int, s.len() as int)));
        assert(views(code@) =~= old_code + split(s, c as int, i as int).0);
        assert(views(literals@) =~= views(literals@) + split(s, c as int, i as int).1);
        proof {
            lemma_split_weave(s, 0, 0);
            assert(s.subrange(0, s.len() as int) =~= s);
        }
        Protected { code, literals }
    }
}

/// Puts each protected region back in place of its placeholder. Fails when
/// there is not exactly one more code region than protected regions.
pub fn restore(code: &Vec<Vec<char>>, literals: &Vec<Vec<char>>) -> (r: Result<Vec<char>, String>)
    ensures
        r is Ok <==> code.len() == literals.len() + 1,
        r is Ok ==> r->Ok_0@ == weave(views(code@), views(literals@)),
        r is Err ==> r->Err_0@ == "Restoration inconsistency: placeholder count mismatch"@,
{
    if code.len() == 0 || code.len() - 1 != literals.len() {
        return Err(String::from_str("Restoration inconsistency: placeholder count mismatch"));
    }
    let ghost cs = views(code@);
    let ghost ls = views(literals@);
    let mut out: Vec<char> = Vec::new();
    let mut k: usize = 0;
    assert(cs.skip(0) =~= cs);
    assert(ls.skip(0) =~= ls);
    assert(out@ + weave(cs, ls) =~= weave(cs, ls));
    while k < literals.len()
        invariant
            k <= literals.len(),
            code.len() == literals.len() + 1,
            cs == views(code@),
            ls == views(literals@),
            weave(cs, ls) == out@ + weave(cs.skip(k as int), ls.skip(k as int)),
        decreases literals.len() - k,
    {
        assert(cs.skip(k as int).drop_first() =~= cs.skip(k + 1));
        assert(ls.skip(k as int).drop_first() =~= ls.skip(k + 1));
        assert(cs.skip(k as int)[0] == code[k as int]@);
        assert(ls.skip(k as int)[0] == literals[k as int]@);
        let ghost before = out@;
        append_chars(&mut out, &code[k]);
        append_chars(&mut out, &literals[k]);
        assert(before + weave(cs.skip(k as int), ls.skip(k as int)) =~= out@ + weave(cs.skip(k + 1), ls.skip(k + 1)));
        k = k + 1;
    }
    assert(cs.skip(k as int)[0] == code[k as int]@);
    append_chars(&mut out, &code[k]);
    Ok(out)
}

} // verus!

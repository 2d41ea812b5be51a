//! Reading a written potential such as `0*len(self.front) + 2*len(self.back)`
//! back into its terms, and writing terms for people.
use vstd::prelude::*;
use crate::text::{
    concat3, i64_text, int_text, is_prefix, is_suffix, join, join_spec, owned, parse_i64, parse_int_spec, push_text,
    remove_spaces, replace_spec, replace_text, split_char, split_once_text, split_once_text_spec, split_spec, strip_prefix,
    strip_suffix, texts, trim, trim_spec, without_spaces,
};

verus! {

/// One term `coeff*len(path)` of a potential.
#[derive(Debug, Clone, PartialEq, Eq)]
pub struct PotentialTerm {
    pub coeff: i64,
    pub path: String,
}

/// The coefficient and the rest of a compact term: `len(` gives 1, else
/// the integer before `*len(`.
pub open spec fn term_head(compact: Seq<char>) -> Option<(int, Seq<char>)> {
    if is_prefix("len("@, compact) {
        Some((1, compact.skip(4)))
    } else {
        match split_once_text_spec(compact, "*len("@) {
            Some((c, p)) => match parse_int_spec(c, true, i64::MIN as int, i64::MAX as int) {
                Some(v) => Some((v, p)),
                None => None,
            },
            None => None,
        }
    }
}

/// A term with its spaces removed, read as `k*len(path)` or `len(path)`.
pub open spec fn term_spec(t: Seq<char>) -> Option<(int, Seq<char>)> {
    let compact = without_spaces(trim_spec(t));
    if compact.len() == 0 {
        None
    } else {
        match term_head(compact) {
            Some((k, rest)) => if is_suffix(")"@, rest) {
                Some((k, rest.take(rest.len() - 1)))
            } else {
                None
            },
            None => None,
        }
    }
}

/// Each piece read as a term, or none when one is not a term.
pub open spec fn terms_spec(pieces: Seq<Seq<char>>) -> Option<Seq<(int, Seq<char>)>>
    decreases pieces.len(),
{
    if pieces.len() == 0 {
        Some(Seq::empty())
    } else {
        match (terms_spec(pieces.drop_last()), term_spec(pieces.last())) {
            (Some(ts), Some(t)) => Some(ts.push(t)),
            _ => None,
        }
    }
}

/// The terms of a potential, split at `+`.
pub open spec fn potential_terms_spec(p: Seq<char>) -> Option<Seq<(int, Seq<char>)>> {
    terms_spec(split_spec(p, '+'))
}

pub open spec fn term_views(ts: Seq<PotentialTerm>) -> Seq<(int, Seq<char>)> {
    ts.map_values(|t: PotentialTerm| (t.coeff as int, t.path@))
}

/// Reads one term such as ` 2 * len(self.back)`.
pub fn parse_potential_term(term: &str) -> (r: Option<PotentialTerm>)
    ensures
        match (r, term_spec(term@)) {
            (Some(p), Some(t)) => p.coeff == t.0 && p.path@ == t.1,
            (None, None) => true,
            _ => false,
        },
{
    let trimmed = trim(term);
    let compact = remove_spaces(trimmed.as_str());
    if compact.as_str().unicode_len() == 0 {
        return None;
    }
    proof {
        reveal_strlit("len(");
        reveal_strlit("*len(");
        reveal_strlit(")");
    }
    let (coeff, rest) = match strip_prefix(compact.as_str(), "len(") {
        Some(path) => (1i64, path),
        None => match split_once_text(compact.as_str(), "*len(") {
            Some((c, path)) => match parse_i64(c.as_str()) {
                Some(v) => (v, path),
                None => return None,
            },
            None => return None,
        },
    };
    match strip_suffix(rest.as_str(), ")") {
        Some(path) => Some(PotentialTerm { coeff, path }),
        None => None,
    }
}

/// Reads every `+`-separated term, or `None` when one is not a term.
pub fn parse_potential_terms(potential: &str) -> (r: Option<Vec<PotentialTerm>>)
    ensures
        match (r, potential_terms_spec(potential@)) {
            (Some(v), Some(t)) => term_views(v@) == t,
            (None, None) => true,
            _ => false,
        },
{
    let pieces = split_char(potential, '+');
    let ghost ps = texts(pieces@);
    let mut out: Vec<PotentialTerm> = Vec::new();
    let mut i: usize = 0;
    while i < pieces.len()
        invariant
            i <= pieces@.len(),
            ps == texts(pieces@),
            ps == split_spec(potential@, '+'),
            terms_spec(ps.take(i as int)) == Some(term_views(out@)),
        decreases pieces@.len() - i,
    {
        assert(ps.take(i + 1).drop_last() =~= ps.take(i as int));
        assert(ps.take(i + 1).last() == pieces@[i as int]@);
        match parse_potential_term(pieces[i].as_str()) {
            Some(t) => {
                let ghost before = out@;
                out.push(t);
                assert(term_views(out@) =~= term_views(before).push((t.coeff as int, t.path@)));
            },
            None => {
                proof {
                    lemma_terms_none_extends(ps, i as int + 1);
                }
                return None;
            },
        }
        i = i + 1;
    }
    assert(ps.take(pieces@.len() as int) =~= ps);
    Some(out)
}

proof fn lemma_terms_none_extends(ps: Seq<Seq<char>>, k: int)
    requires
        0 <= k <= ps.len(),
        terms_spec(ps.take(k)) is None,
    ensures
        terms_spec(ps) is None,
    decreases ps.len() - k,
{
    if k < ps.len() {
        assert(ps.take(k + 1).drop_last() =~= ps.take(k));
        lemma_terms_none_extends(ps, k + 1);
    } else {
        assert(ps.take(k) =~= ps);
    }
}

/// `*` written with a space on each side.
pub fn normalize_potential_expression(potential: &str) -> (r: String)
    ensures
        r@ == replace_spec(potential@, "*"@, " * "@),
{
    proof {
        reveal_strlit("*");
    }
    replace_text(potential, "*", " * ")
}

/// How a term is written for people: `len(p)`, `-len(p)` or `k * len(p)`.
pub open spec fn term_words(k: int, path: Seq<char>) -> Seq<char> {
    if k == 1 {
        "len("@ + path + ")"@
    } else if k == -1 {
        "-len("@ + path + ")"@
    } else {
        int_text(k) + " * len("@ + path + ")"@
    }
}

pub fn format_potential_term(coeff: i64, path: &str) -> (r: String)
    ensures
        r@ == term_words(coeff as int, path@),
{
    if coeff == 1 {
        concat3("len(", path, ")")
    } else if coeff == -1 {
        concat3("-len(", path, ")")
    } else {
        let mut s = i64_text(coeff);
        push_text(&mut s, " * len(");
        push_text(&mut s, path);
        push_text(&mut s, ")");
        s
    }
}

/// The terms with a non-zero coefficient, in order.
pub open spec fn nonzero_terms(ts: Seq<(int, Seq<char>)>) -> Seq<(int, Seq<char>)>
    decreases ts.len(),
{
    if ts.len() == 0 {
        Seq::empty()
    } else if ts.last().0 != 0 {
        nonzero_terms(ts.drop_last()).push(ts.last())
    } else {
        nonzero_terms(ts.drop_last())
    }
}

/// The non-zero terms written for people, joined by ` + ` with `+ -` written `- `.
pub open spec fn terms_expression(ts: Seq<(int, Seq<char>)>) -> Seq<char> {
    replace_spec(
        join_spec(nonzero_terms(ts).map_values(|t: (int, Seq<char>)| term_words(t.0, t.1)), " + "@),
        "+ -"@,
        "- "@,
    )
}

/// Whether some term has a non-zero coefficient.
pub fn has_nonzero_term(terms: &Vec<PotentialTerm>) -> (r: bool)
    ensures
        r == (nonzero_terms(term_views(terms@)).len() > 0),
{
    let ghost tv = term_views(terms@);
    let mut i: usize = 0;
    while i < terms.len()
        invariant
            i <= terms@.len(),
            tv == term_views(terms@),
            nonzero_terms(tv.take(i as int)).len() == 0,
        decreases terms@.len() - i,
    {
        assert(tv.take(i + 1).drop_last() =~= tv.take(i as int));
        if terms[i].coeff != 0 {
            proof {
                lemma_nonzero_grows(tv, i as int + 1);
            }
            return true;
        }
        i = i + 1;
    }
    assert(tv.take(terms@.len() as int) =~= tv);
    false
}

proof fn lemma_nonzero_grows(ts: Seq<(int, Seq<char>)>, k: int)
    requires
        0 <= k <= ts.len(),
        nonzero_terms(ts.take(k)).len() > 0,
    ensures
        nonzero_terms(ts).len() > 0,
    decreases ts.len() - k,
{
    if k < ts.len() {
        assert(ts.take(k + 1).drop_last() =~= ts.take(k));
        lemma_nonzero_grows(ts, k + 1);
    } else {
        assert(ts.take(k) =~= ts);
    }
}

/// The expression of the non-zero terms.
pub fn nonzero_expression(terms: &Vec<PotentialTerm>) -> (r: String)
    ensures
        r@ == terms_expression(term_views(terms@)),
{
    let ghost tv = term_views(terms@);
    let mut parts: Vec<String> = Vec::new();
    let mut i: usize = 0;
    while i < terms.len()
        invariant
            i <= terms@.len(),
            tv == term_views(terms@),
            texts(parts@) == nonzero_terms(tv.take(i as int)).map_values(|t: (int, Seq<char>)| term_words(t.0, t.1)),
        decreases terms@.len() - i,
    {
        assert(tv.take(i + 1).drop_last() =~= tv.take(i as int));
        assert(tv.take(i + 1).last() == tv[i as int]);
        let t = &terms[i];
        if t.coeff != 0 {
            let w = format_potential_term(t.coeff, t.path.as_str());
            let ghost before = parts@;
            parts.push(w);
            assert(texts(parts@) =~= texts(before).push(w@));
            assert(nonzero_terms(tv.take(i + 1)).map_values(|t: (int, Seq<char>)| term_words(t.0, t.1))
                =~= nonzero_terms(tv.take(i as int)).map_values(|t: (int, Seq<char>)| term_words(t.0, t.1)).push(w@));
        }
        i = i + 1;
    }
    assert(tv.take(terms@.len() as int) =~= tv);
    let joined = join(&parts, " + ");
    proof {
        reveal_strlit("+ -");
    }
    replace_text(joined.as_str(), "+ -", "- ")
}

} // verus!

//! Reading a written linear expression back: the text that `to_string`
//! gives parses to the same expression.
use vstd::prelude::*;
use crate::expr::{
    accumulate, bump0, flush_spec, get0, i64_value, in_i64, scan_spec, term_spec, ParseState, TermValue,
};
use crate::expr::{lemma_normal_form_unique, parse_matches, parse_body, parse_spec, same_expr, term_text, terms_text, LinExpr};
use crate::semantics::{entries_coeff, entry_names, lemma_coeff_is_entries_coeff, lemma_names_distinct};
use crate::text::{
    is_white_space, all_digits, digit_char, digit_value, digits_value, is_digit, lemma_first_index_unique, nat_text,
    split_once_spec, text_value, int_text, is_prefix, is_suffix, join_spec, replace_spec, without_spaces, trim_spec, trim_start_index, trim_end_len,
};

verus! {

// ---------------------------------------------------------------------------
// Decimal digits
// ---------------------------------------------------------------------------

proof fn lemma_digit_char(d: int)
    requires
        0 <= d < 10,
    ensures
        is_digit(digit_char(d)),
        digit_value(digit_char(d)) == d,
{
    assert('0' as u32 == 48);
    assert('1' as u32 == 49);
    assert('2' as u32 == 50);
    assert('3' as u32 == 51);
    assert('4' as u32 == 52);
    assert('5' as u32 == 53);
    assert('6' as u32 == 54);
    assert('7' as u32 == 55);
    assert('8' as u32 == 56);
    assert('9' as u32 == 57);
}

/// The decimal text of a number is a non-empty run of digits worth that number.
pub proof fn lemma_nat_text_digits(n: nat)
    ensures
        nat_text(n).len() > 0,
        all_digits(nat_text(n)),
        digits_value(nat_text(n)) == n,
    decreases n,
{
    if n < 10 {
        lemma_digit_char(n as int);
        let s = nat_text(n);
        assert(s.drop_last().len() == 0);
        assert(s.last() == digit_char(n as int));
        assert(digits_value(s) == digits_value(s.drop_last()) * 10 + (digit_value(s.last()) as nat));
        assert(digits_value(s.drop_last()) == 0);
    } else {
        lemma_nat_text_digits(n / 10);
        lemma_digit_char((n % 10) as int);
        let s = nat_text(n);
        assert(s.drop_last() =~= nat_text(n / 10));
        assert(s.last() == digit_char((n % 10) as int));
        assert(digits_value(s) == digits_value(nat_text(n / 10)) * 10 + (digit_value(s.last()) as nat));
        assert((n / 10) * 10 + n % 10 == n) by (nonlinear_arith);
    }
}

/// The decimal text of a number in range reads back as that number.
pub proof fn lemma_nat_text_value(n: nat)
    requires
        n <= i64::MAX,
    ensures
        i64_value(nat_text(n)) == Some(n as int),
{
    lemma_nat_text_digits(n);
    let s = nat_text(n);
    assert(is_digit(s[0]));
    assert('+' as u32 == 43);
    assert('-' as u32 == 45);
    assert(s[0] != '+' && s[0] != '-');
    assert(text_value(s, true) == Some(n as int));
}


// ---------------------------------------------------------------------------
// Reading signed tokens
// ---------------------------------------------------------------------------

/// A written term after its sign: whether the sign is `-`, and the text.
pub type Token = (bool, Seq<char>);

pub open spec fn sign_char(neg: bool) -> char {
    if neg {
        '-'
    } else {
        '+'
    }
}

pub open spec fn sign_value(neg: bool) -> int {
    if neg {
        -1
    } else {
        1
    }
}

/// A text without `+` or `-`.
pub open spec fn unsigned_text(s: Seq<char>) -> bool {
    forall|i: int| 0 <= i < s.len() ==> #[trigger] s[i] != '+' && s[i] != '-'
}

/// Tokens written one after another, each after its sign character: `+a-2*b`.
pub open spec fn signed_text(toks: Seq<Token>) -> Seq<char>
    decreases toks.len(),
{
    if toks.len() == 0 {
        Seq::empty()
    } else {
        seq![sign_char(toks[0].0)] + toks[0].1 + signed_text(toks.drop_first())
    }
}

/// The tokens read one after another into the sum `acc`.
pub open spec fn fold_tokens(toks: Seq<Token>, acc: (int, Map<Seq<char>, int>)) -> ParseState
    decreases toks.len(),
{
    if toks.len() == 0 {
        Some(Ok(acc))
    } else {
        match flush_spec(toks[0].1, sign_value(toks[0].0), acc) {
            Some(Ok(a)) => fold_tokens(toks.drop_first(), a),
            other => other,
        }
    }
}

/// Characters other than signs go to the pending token.
proof fn lemma_scan_body(
    body: Seq<char>,
    rest: Seq<char>,
    buf: Seq<char>,
    sign: int,
    acc: (int, Map<Seq<char>, int>),
)
    requires
        unsigned_text(body),
    ensures
        scan_spec(body + rest, buf, sign, acc) == scan_spec(rest, buf + body, sign, acc),
    decreases body.len(),
{
    if body.len() == 0 {
        assert(body + rest =~= rest);
        assert(buf + body =~= buf);
    } else {
        let s = body + rest;
        assert(s[0] == body[0]);
        assert(s.drop_first() =~= body.drop_first() + rest);
        assert(buf.push(body[0]) + body.drop_first() =~= buf + body);
        assert(unsigned_text(body.drop_first())) by {
            assert forall|i: int| 0 <= i < body.drop_first().len() implies #[trigger] body.drop_first()[i] != '+'
                && body.drop_first()[i] != '-' by {
                assert(body.drop_first()[i] == body[i + 1]);
            }
        }
        lemma_scan_body(body.drop_first(), rest, buf.push(body[0]), sign, acc);
    }
}

/// Scanning signed tokens with a pending token ends that token and then
/// reads the tokens in turn.
proof fn lemma_scan_tokens(toks: Seq<Token>, buf: Seq<char>, sign: int, acc: (int, Map<Seq<char>, int>))
    requires
        forall|i: int| 0 <= i < toks.len() ==> unsigned_text(#[trigger] toks[i].1),
    ensures
        scan_spec(signed_text(toks), buf, sign, acc) == match flush_spec(buf, sign, acc) {
            Some(Ok(a)) => fold_tokens(toks, a),
            other => other,
        },
    decreases toks.len(),
{
    if toks.len() > 0 {
        let t = toks[0];
        let tail = toks.drop_first();
        let s = signed_text(toks);
        assert(s[0] == sign_char(t.0));
        assert(s.drop_first() =~= t.1 + signed_text(tail));
        assert(unsigned_text(toks[0].1));
        match flush_spec(buf, sign, acc) {
            Some(Ok(a)) => {
                lemma_scan_body(t.1, signed_text(tail), Seq::empty(), sign_value(t.0), a);
                assert(Seq::<char>::empty() + t.1 =~= t.1);
                assert forall|i: int| 0 <= i < tail.len() implies unsigned_text(#[trigger] tail[i].1) by {
                    assert(tail[i] == toks[i + 1]);
                }
                lemma_scan_tokens(tail, t.1, sign_value(t.0), a);
            },
            _ => {},
        }
    }
}


// ---------------------------------------------------------------------------
// Reading the terms
// ---------------------------------------------------------------------------

/// A variable name that reads back as itself: non-empty, without white
/// space, signs or `*`, and not itself a number.
pub open spec fn readable_name(n: Seq<char>) -> bool {
    &&& n.len() > 0
    &&& forall|i: int|
        0 <= i < n.len() ==> !is_white_space(#[trigger] n[i]) && n[i] != '+' && n[i] != '-' && n[i] != '*'
    &&& i64_value(n) is None
}

pub open spec fn magnitude(c: int) -> nat {
    if c < 0 {
        (-c) as nat
    } else {
        c as nat
    }
}

/// How the term `c·n` is written after its sign: `n` or `|c|*n`.
pub open spec fn term_body(n: Seq<char>, c: int) -> Seq<char> {
    if c == 1 || c == -1 {
        n
    } else {
        nat_text(magnitude(c)) + seq!['*'] + n
    }
}

/// The tokens of a list of terms.
pub open spec fn term_tokens(es: Seq<(String, i64)>) -> Seq<Token> {
    Seq::new(es.len(), |i: int| (es[i].1 < 0, term_body(es[i].0@, es[i].1 as int)))
}

/// The coefficients of a list of terms, zero ones left out.
pub open spec fn coeff_map(es: Seq<(String, i64)>) -> Map<Seq<char>, int> {
    Map::new(|n: Seq<char>| entries_coeff(es, n) != 0, |n: Seq<char>| entries_coeff(es, n))
}

/// A name that no entry carries has coefficient zero.
proof fn lemma_absent_coeff(es: Seq<(String, i64)>, n: Seq<char>)
    requires
        forall|i: int| 0 <= i < es.len() ==> #[trigger] es[i].0@ != n,
    ensures
        entries_coeff(es, n) == 0,
    decreases es.len(),
{
    if es.len() > 0 {
        assert(es.last().0@ != n) by {
            assert(es[es.len() - 1].0@ != n);
        }
        assert forall|i: int| 0 <= i < es.drop_last().len() implies #[trigger] es.drop_last()[i].0@ != n by {
            assert(es.drop_last()[i] == es[i]);
        }
        lemma_absent_coeff(es.drop_last(), n);
    }
}

/// A written term reads back as its name and coefficient.
proof fn lemma_term_token(n: Seq<char>, c: int)
    requires
        readable_name(n),
        c != 0,
        i64::MIN < c <= i64::MAX,
    ensures
        term_spec(term_body(n, c), sign_value(c < 0)) == Some(Ok::<TermValue, crate::expr::TermError>((0int, n, c))),
        unsigned_text(term_body(n, c)),
        term_body(n, c).len() > 0,
        no_white_space(term_body(n, c)),
{
    let tok = term_body(n, c);
    let sign = sign_value(c < 0);
    let m = magnitude(c);
    if c == 1 || c == -1 {
        assert(!(exists|i: int| 0 <= i < n.len() && n[i] == '*'));
        assert(split_once_spec(n, '*') is None);
    } else {
        let d = nat_text(m);
        lemma_nat_text_digits(m);
        lemma_nat_text_value(m);
        assert('*' as u32 == 42);
        assert('+' as u32 == 43);
        assert('-' as u32 == 45);
        assert(tok[d.len() as int] == '*');
        assert(!is_digit('*'));
        assert(!all_digits(tok));
        assert(tok[0] == d[0]);
        assert(is_digit(d[0]));
        assert(text_value(tok, true) is None);
        assert forall|j: int| 0 <= j < d.len() implies tok[j] != '*' by {
            assert(tok[j] == d[j]);
            assert(is_digit(d[j]));
        }
        lemma_first_index_unique(tok, '*', d.len() as int);
        assert(tok.take(d.len() as int) =~= d);
        assert(tok.skip(d.len() as int + 1) =~= n);
        assert(sign * m == c);
        assert forall|i: int| 0 <= i < tok.len() implies #[trigger] tok[i] != '+' && tok[i] != '-' by {
            if i < d.len() {
                assert(tok[i] == d[i]);
                assert(is_digit(d[i]));
            } else if i > d.len() {
                assert(tok[i] == n[i - d.len() - 1]);
            }
        }
        assert forall|i: int| 0 <= i < tok.len() implies !is_white_space(#[trigger] tok[i]) by {
            if i < d.len() {
                assert(tok[i] == d[i]);
                assert(is_digit(d[i]));
            } else if i > d.len() {
                assert(tok[i] == n[i - d.len() - 1]);
            }
        }
    }
}

/// A written constant reads back as itself.
proof fn lemma_constant_token(c: int)
    requires
        i64::MIN < c <= i64::MAX,
    ensures
        term_spec(nat_text(magnitude(c)), sign_value(c < 0)) == Some(
            Ok::<TermValue, crate::expr::TermError>((c, Seq::<char>::empty(), 0int)),
        ),
        unsigned_text(nat_text(magnitude(c))),
        nat_text(magnitude(c)).len() > 0,
        no_white_space(nat_text(magnitude(c))),
{
    let d = nat_text(magnitude(c));
    lemma_nat_text_digits(magnitude(c));
    lemma_nat_text_value(magnitude(c));
    assert('+' as u32 == 43);
    assert('-' as u32 == 45);
    assert forall|i: int| 0 <= i < d.len() implies #[trigger] d[i] != '+' && d[i] != '-' && !is_white_space(d[i]) by {
        assert(is_digit(d[i]));
    }
}


/// Terms that read back: readable names, each once, with non-zero
/// coefficients other than `i64::MIN`.
pub open spec fn readable_terms(es: Seq<(String, i64)>) -> bool {
    &&& forall|i: int|
        0 <= i < es.len() ==> readable_name(#[trigger] es[i].0@) && es[i].1 != 0 && es[i].1 != i64::MIN
    &&& forall|i: int, j: int| 0 <= i < j < es.len() ==> #[trigger] es[i].0@ != #[trigger] es[j].0@
}

/// Reading the `k`-th term adds its coefficient to those of the first `k`.
proof fn lemma_fold_step(es: Seq<(String, i64)>, k: int, c0: int)
    requires
        0 <= k < es.len(),
        in_i64(c0),
        readable_name(es[k].0@),
        es[k].1 != 0,
        es[k].1 != i64::MIN,
        forall|i: int| 0 <= i < k ==> #[trigger] es[i].0@ != es[k].0@,
    ensures
        flush_spec(term_tokens(es)[k].1, sign_value(term_tokens(es)[k].0), (c0, coeff_map(es.take(k)))) == Some(
            Ok::<(int, Map<Seq<char>, int>), crate::expr::TermError>((c0, coeff_map(es.take(k + 1)))),
        ),
{
    let n = es[k].0@;
    let c = es[k].1 as int;
    lemma_term_token(n, c);
    let m = coeff_map(es.take(k));
    assert forall|i: int| 0 <= i < es.take(k).len() implies #[trigger] es.take(k)[i].0@ != n by {
        assert(es.take(k)[i] == es[i]);
    }
    lemma_absent_coeff(es.take(k), n);
    assert(get0(m, n) == 0);
    let t: TermValue = (0int, n, c);
    assert(accumulate((c0, m), t) == Some((c0, bump0(m, n, c))));
    assert(es.take(k + 1).drop_last() =~= es.take(k));
    assert(es.take(k + 1).last() == es[k]);
    assert forall|x: Seq<char>| #[trigger] entries_coeff(es.take(k + 1), x) == entries_coeff(es.take(k), x)
        + if x == n { c } else { 0 } by {}
    assert(bump0(m, n, c) =~= coeff_map(es.take(k + 1)));
}

/// Reading the terms from the `k`-th on, after the first `k` were read.
proof fn lemma_fold_terms(es: Seq<(String, i64)>, k: int, c0: int)
    requires
        readable_terms(es),
        0 <= k <= es.len(),
        in_i64(c0),
    ensures
        fold_tokens(term_tokens(es).skip(k), (c0, coeff_map(es.take(k)))) == Some(
            Ok::<(int, Map<Seq<char>, int>), crate::expr::TermError>((c0, coeff_map(es))),
        ),
    decreases es.len() - k,
{
    let toks = term_tokens(es).skip(k);
    if k == es.len() {
        assert(es.take(k) =~= es);
        assert(toks.len() == 0);
    } else {
        assert(readable_name(es[k].0@) && es[k].1 != 0 && es[k].1 != i64::MIN);
        assert forall|i: int| 0 <= i < k implies #[trigger] es[i].0@ != es[k].0@ by {
            assert(es[i].0@ != es[k].0@);
        }
        lemma_fold_step(es, k, c0);
        assert(toks[0] == term_tokens(es)[k]);
        assert(toks.drop_first() =~= term_tokens(es).skip(k + 1));
        lemma_fold_terms(es, k + 1, c0);
    }
}


/// Each term of the expression reads back: its name is readable and its
/// coefficient is not `i64::MIN`.
pub open spec fn readable_entries(e: LinExpr) -> bool {
    forall|i: int|
        0 <= i < e.terms.entries().len() ==> readable_name(#[trigger] e.terms.entries()[i].0@)
            && e.terms.entries()[i].1 != i64::MIN
}

/// The tokens of an expression: its constant where it is written, then its terms.
pub open spec fn expr_tokens(e: LinExpr) -> Seq<Token> {
    let head = if e.constant != 0 || e.terms.entries().len() == 0 {
        seq![(e.constant < 0, nat_text(magnitude(e.constant as int)))]
    } else {
        Seq::empty()
    };
    head + term_tokens(e.terms.entries())
}

/// Reading the tokens of an expression gives its constant and coefficients.
proof fn lemma_fold_expr(e: LinExpr)
    requires
        e.wf(),
        e.normalized(),
        e.constant != i64::MIN,
        readable_entries(e),
    ensures
        fold_tokens(expr_tokens(e), (0, Map::empty())) == Some(
            Ok::<(int, Map<Seq<char>, int>), crate::expr::TermError>((e.constant as int, e.canon())),
        ),
        plain_tokens(expr_tokens(e)),
        expr_tokens(e).len() > 0,
{
    let es = e.terms.entries();
    let c0 = e.constant as int;
    lemma_names_distinct(e);
    assert(readable_terms(es)) by {
        assert forall|i: int, j: int| 0 <= i < j < es.len() implies #[trigger] es[i].0@ != #[trigger] es[j].0@ by {
            assert(entry_names(es)[i] == es[i].0@);
            assert(entry_names(es)[j] == es[j].0@);
        }
        assert forall|i: int| 0 <= i < es.len() implies readable_name(#[trigger] es[i].0@) && es[i].1 != 0
            && es[i].1 != i64::MIN by {
            assert(es[i].1 != 0);
        }
    }
    assert(coeff_map(es.take(0)) =~= Map::<Seq<char>, int>::empty()) by {
        assert(es.take(0).len() == 0);
    }
    lemma_fold_terms(es, 0, c0);
    assert(term_tokens(es).skip(0) =~= term_tokens(es));
    let toks = expr_tokens(e);
    if e.constant != 0 || es.len() == 0 {
        lemma_constant_token(c0);
        assert(toks[0] == (e.constant < 0, nat_text(magnitude(c0))));
        assert(toks.drop_first() =~= term_tokens(es));
        assert(accumulate((0, Map::empty()), (c0, Seq::empty(), 0)) == Some((c0, Map::<Seq<char>, int>::empty())));
    } else {
        assert(toks =~= term_tokens(es));
        lemma_fold_terms(es, 0, 0);
        assert(toks.len() > 0);
    }
    assert(coeff_map(es) =~= e.canon()) by {
        assert forall|n: Seq<char>| #[trigger] e.coeff_of(n) == entries_coeff(es, n) by {
            lemma_coeff_is_entries_coeff(e, n);
        }
    }
    assert forall|i: int| 0 <= i < toks.len() implies unsigned_text(#[trigger] toks[i].1) && toks[i].1.len() > 0
        && no_white_space(toks[i].1) by {
        if e.constant != 0 || es.len() == 0 {
            lemma_constant_token(c0);
            if i > 0 {
                assert(toks[i] == term_tokens(es)[i - 1]);
                lemma_term_token(es[i - 1].0@, es[i - 1].1 as int);
            }
        } else {
            assert(toks[i] == term_tokens(es)[i]);
            lemma_term_token(es[i].0@, es[i].1 as int);
        }
    }
}


// ---------------------------------------------------------------------------
// The written form
// ---------------------------------------------------------------------------

/// A text without white space.
pub open spec fn no_white_space(s: Seq<char>) -> bool {
    forall|i: int| 0 <= i < s.len() ==> !is_white_space(#[trigger] s[i])
}

/// A token as it stands among the joined parts: `-` before a negative one.
pub open spec fn part_text(t: Token) -> Seq<char> {
    if t.0 {
        seq!['-'] + t.1
    } else {
        t.1
    }
}

/// Tokens written after the first one: ` + a - 2*b`.
pub open spec fn spaced_text(toks: Seq<Token>) -> Seq<char>
    decreases toks.len(),
{
    if toks.len() == 0 {
        Seq::empty()
    } else {
        seq![' ', sign_char(toks[0].0), ' '] + toks[0].1 + spaced_text(toks.drop_first())
    }
}

/// Parts after the first, each after the separator.
pub open spec fn rest_join(ps: Seq<Seq<char>>, sep: Seq<char>) -> Seq<char>
    decreases ps.len(),
{
    if ps.len() == 0 {
        Seq::empty()
    } else {
        sep + ps[0] + rest_join(ps.drop_first(), sep)
    }
}

proof fn lemma_rest_join_push(ps: Seq<Seq<char>>, x: Seq<char>, sep: Seq<char>)
    ensures
        rest_join(ps.push(x), sep) == rest_join(ps, sep) + sep + x,
    decreases ps.len(),
{
    if ps.len() == 0 {
        assert(ps.push(x).drop_first() =~= Seq::<Seq<char>>::empty());
        assert(ps.push(x)[0] == x);
        assert(rest_join(Seq::<Seq<char>>::empty(), sep) == Seq::<char>::empty());
        assert(rest_join(ps.push(x), sep) == sep + x + Seq::<char>::empty());
        assert(sep + x + Seq::<char>::empty() =~= sep + x);
        assert(rest_join(ps, sep) + sep + x =~= sep + x);
    } else {
        assert(ps.push(x).drop_first() =~= ps.drop_first().push(x));
        lemma_rest_join_push(ps.drop_first(), x, sep);
        assert(rest_join(ps.push(x), sep) =~= rest_join(ps, sep) + sep + x);
    }
}

/// Joining is the first part, then each other part after the separator.
proof fn lemma_join_front(ps: Seq<Seq<char>>, sep: Seq<char>)
    requires
        ps.len() > 0,
    ensures
        join_spec(ps, sep) == ps[0] + rest_join(ps.drop_first(), sep),
    decreases ps.len(),
{
    if ps.len() == 1 {
        assert(ps.drop_first().len() == 0);
        assert(ps[0] + Seq::<char>::empty() =~= ps[0]);
    } else {
        lemma_join_front(ps.drop_last(), sep);
        assert(ps.drop_last().drop_first().push(ps.last()) =~= ps.drop_first());
        lemma_rest_join_push(ps.drop_last().drop_first(), ps.last(), sep);
        assert(join_spec(ps, sep) =~= ps[0] + rest_join(ps.drop_first(), sep));
    }
}

/// Replacing a pattern that starts with `+` passes over a text without `+`.
proof fn lemma_replace_skip(x: Seq<char>, y: Seq<char>, p: Seq<char>, q: Seq<char>)
    requires
        p.len() > 0,
        p[0] == '+',
        forall|i: int| 0 <= i < x.len() ==> #[trigger] x[i] != '+',
    ensures
        replace_spec(x + y, p, q) == x + replace_spec(y, p, q),
    decreases x.len(),
{
    if x.len() == 0 {
        assert(x + y =~= y);
        assert(x + replace_spec(y, p, q) =~= replace_spec(y, p, q));
    } else {
        let s = x + y;
        if s.len() < p.len() {
            assert(replace_spec(y, p, q) == y);
        } else {
            assert(s.take(p.len() as int)[0] == x[0]);
            assert(s.take(p.len() as int) != p);
            assert(s.drop_first() =~= x.drop_first() + y);
            lemma_replace_skip(x.drop_first(), y, p, q);
            assert(seq![s[0]] + (x.drop_first() + replace_spec(y, p, q)) =~= x + replace_spec(y, p, q));
        }
    }
}


/// Tokens whose texts are non-empty and hold no sign.
pub open spec fn plain_tokens(ts: Seq<Token>) -> bool {
    forall|i: int| 0 <= i < ts.len() ==> unsigned_text(#[trigger] ts[i].1) && ts[i].1.len() > 0
        && no_white_space(ts[i].1)
}

proof fn lemma_plain_tail(ts: Seq<Token>)
    requires
        plain_tokens(ts),
        ts.len() > 0,
    ensures
        plain_tokens(ts.drop_first()),
        unsigned_text(ts[0].1),
        ts[0].1.len() > 0,
        no_white_space(ts[0].1),
{
    assert forall|i: int| 0 <= i < ts.drop_first().len() implies unsigned_text(#[trigger] ts.drop_first()[i].1)
        && ts.drop_first()[i].1.len() > 0 && no_white_space(ts.drop_first()[i].1) by {
        assert(ts.drop_first()[i] == ts[i + 1]);
    }
}

/// After the first part, joining with ` + ` and writing `+ -` as `- `
/// gives the spaced form.
proof fn lemma_replace_rest(ps: Seq<Seq<char>>, ts: Seq<Token>)
    requires
        ps.len() == ts.len(),
        forall|i: int| 0 <= i < ps.len() ==> #[trigger] ps[i] == part_text(ts[i]),
        plain_tokens(ts),
    ensures
        replace_spec(rest_join(ps, " + "@), "+ -"@, "- "@) == spaced_text(ts),
    decreases ts.len(),
{
    reveal_strlit(" + ");
    reveal_strlit("+ -");
    reveal_strlit("- ");
    let p = "+ -"@;
    let q = "- "@;
    if ts.len() == 0 {
        assert(rest_join(ps, " + "@).len() == 0);
    } else {
        let t = ts[0];
        let body = t.1;
        lemma_plain_tail(ts);
        assert forall|i: int| 0 <= i < ps.drop_first().len() implies #[trigger] ps.drop_first()[i] == part_text(
            ts.drop_first()[i],
        ) by {
            assert(ps.drop_first()[i] == ps[i + 1]);
            assert(ts.drop_first()[i] == ts[i + 1]);
        }
        lemma_replace_rest(ps.drop_first(), ts.drop_first());
        let r = rest_join(ps.drop_first(), " + "@);
        assert(ps[0] == part_text(t));
        assert(forall|i: int| 0 <= i < body.len() ==> #[trigger] body[i] != '+');
        lemma_replace_skip(body, r, p, q);
        if t.0 {
            let z = seq!['+', ' ', '-'] + (body + r);
            assert(rest_join(ps, " + "@) =~= seq![' '] + z);
            lemma_replace_skip(seq![' '], z, p, q);
            assert(z.take(3) =~= p);
            assert(z.skip(3) =~= body + r);
            assert(replace_spec(z, p, q) == q + replace_spec(z.skip(3), p, q));
            assert(seq![' '] + (q + (body + replace_spec(r, p, q))) =~= spaced_text(ts));
        } else {
            let z = seq!['+', ' '] + (body + r);
            assert(rest_join(ps, " + "@) =~= seq![' '] + z);
            lemma_replace_skip(seq![' '], z, p, q);
            assert(z.take(3)[2] == body[0]);
            assert(z.take(3) != p);
            assert(z.drop_first() =~= (seq![' '] + body) + r);
            assert forall|i: int| 0 <= i < (seq![' '] + body).len() implies #[trigger] (seq![' '] + body)[i] != '+' by {
                if i > 0 {
                    assert((seq![' '] + body)[i] == body[i - 1]);
                }
            }
            lemma_replace_skip(seq![' '] + body, r, p, q);
            assert(replace_spec(z, p, q) == seq![z[0]] + replace_spec(z.drop_first(), p, q));
            assert(seq![' '] + (seq!['+'] + ((seq![' '] + body) + replace_spec(r, p, q))) =~= spaced_text(ts));
        }
    }
}


proof fn lemma_terms_text(es: Seq<(String, i64)>)
    ensures
        terms_text(es).len() == es.len(),
        forall|i: int| 0 <= i < es.len() ==> #[trigger] terms_text(es)[i] == term_text(es[i].0@, es[i].1 as int),
    decreases es.len(),
{
    if es.len() > 0 {
        lemma_terms_text(es.drop_last());
        assert forall|i: int| 0 <= i < es.len() implies #[trigger] terms_text(es)[i] == term_text(
            es[i].0@,
            es[i].1 as int,
        ) by {
            if i < es.len() - 1 {
                assert(es.drop_last()[i] == es[i]);
            }
        }
    }
}

/// The parts that are joined are the tokens with `-` before negative ones.
proof fn lemma_parts(e: LinExpr)
    requires
        e.wf(),
        e.normalized(),
        e.constant != i64::MIN,
        readable_entries(e),
    ensures
        e.text_parts().len() == expr_tokens(e).len(),
        forall|i: int| 0 <= i < e.text_parts().len() ==> #[trigger] e.text_parts()[i] == part_text(expr_tokens(e)[i]),
{
    let es = e.terms.entries();
    let toks = expr_tokens(e);
    let parts = e.text_parts();
    lemma_terms_text(es);
    let c0 = e.constant as int;
    let h: int = if e.constant != 0 || es.len() == 0 { 1 } else { 0 };
    assert(parts.len() == toks.len());
    assert forall|i: int| 0 <= i < parts.len() implies #[trigger] parts[i] == part_text(toks[i]) by {
        if i < h {
            assert(parts[i] == int_text(c0));
            assert(toks[i] == (e.constant < 0, nat_text(magnitude(c0))));
            assert(int_text(c0) =~= part_text(toks[i]));
        } else {
            let n = es[i - h].0@;
            let c = es[i - h].1 as int;
            assert(parts[i] == terms_text(es)[i - h]);
            assert(toks[i] == term_tokens(es)[i - h]);
            assert(term_text(n, c) =~= part_text((c < 0, term_body(n, c))));
        }
    }
}

proof fn lemma_ws_concat(a: Seq<char>, b: Seq<char>)
    ensures
        without_spaces(a + b) == without_spaces(a) + without_spaces(b),
    decreases b.len(),
{
    if b.len() == 0 {
        assert(a + b =~= a);
        assert(without_spaces(a) + without_spaces(b) =~= without_spaces(a));
    } else {
        assert((a + b).drop_last() =~= a + b.drop_last());
        assert((a + b).last() == b.last());
        lemma_ws_concat(a, b.drop_last());
        if b.last() == ' ' {
        } else {
            assert(without_spaces(a + b) =~= without_spaces(a) + without_spaces(b));
        }
    }
}

proof fn lemma_ws_none(a: Seq<char>)
    requires
        no_white_space(a),
    ensures
        without_spaces(a) == a,
    decreases a.len(),
{
    if a.len() > 0 {
        assert(is_white_space(' '));
        assert(a.last() == a[a.len() - 1]);
        assert(no_white_space(a.drop_last())) by {
            assert forall|i: int| 0 <= i < a.drop_last().len() implies !is_white_space(#[trigger] a.drop_last()[i]) by {
                assert(a.drop_last()[i] == a[i]);
            }
        }
        lemma_ws_none(a.drop_last());
        assert(a.drop_last().push(a.last()) =~= a);
    }
}

/// With the spaces removed, the spaced form is the signed form.
proof fn lemma_ws_spaced(ts: Seq<Token>)
    requires
        plain_tokens(ts),
    ensures
        without_spaces(spaced_text(ts)) == signed_text(ts),
    decreases ts.len(),
{
    if ts.len() > 0 {
        lemma_plain_tail(ts);
        lemma_ws_spaced(ts.drop_first());
        let g = seq![' ', sign_char(ts[0].0), ' '];
        let body = ts[0].1;
        let tail = spaced_text(ts.drop_first());
        assert(spaced_text(ts) == g + body + tail);
        lemma_ws_concat(g + body, tail);
        lemma_ws_concat(g, body);
        lemma_ws_none(body);
        reveal_with_fuel(without_spaces, 4);
        assert(g.drop_last() =~= seq![' ', sign_char(ts[0].0)]);
        assert(g.drop_last().drop_last() =~= seq![' ']);
        assert(g.drop_last().drop_last().drop_last() =~= Seq::<char>::empty());
        assert(without_spaces(g) =~= seq![sign_char(ts[0].0)]);
        assert(signed_text(ts) =~= seq![sign_char(ts[0].0)] + body + signed_text(ts.drop_first()));
    }
}

/// The spaced form ends as the last token does.
proof fn lemma_spaced_last(ts: Seq<Token>)
    requires
        plain_tokens(ts),
        ts.len() > 0,
    ensures
        spaced_text(ts).len() > 0,
        spaced_text(ts).last() == ts.last().1.last(),
    decreases ts.len(),
{
    lemma_plain_tail(ts);
    let tail = ts.drop_first();
    if tail.len() == 0 {
        assert(spaced_text(tail).len() == 0);
        assert(spaced_text(ts) =~= seq![' ', sign_char(ts[0].0), ' '] + ts[0].1);
    } else {
        lemma_spaced_last(tail);
        assert(tail.last() == ts.last());
    }
}

/// A text that starts and ends with other than white space is its own trim.
proof fn lemma_trim_none(t: Seq<char>)
    requires
        t.len() > 0,
        !is_white_space(t[0]),
        !is_white_space(t.last()),
    ensures
        trim_spec(t) == t,
{
    assert(trim_start_index(t) == 0);
    assert(t.skip(0) =~= t);
    assert(trim_end_len(t) == t.len());
    assert(t.take(t.len() as int) =~= t);
}


/// The signed form ends as the last token does.
proof fn lemma_signed_last(ts: Seq<Token>)
    requires
        plain_tokens(ts),
        ts.len() > 0,
    ensures
        signed_text(ts).len() > 0,
        signed_text(ts)[0] == sign_char(ts[0].0),
        signed_text(ts).last() == ts.last().1.last(),
    decreases ts.len(),
{
    lemma_plain_tail(ts);
    let tail = ts.drop_first();
    if tail.len() == 0 {
        assert(signed_text(tail).len() == 0);
        assert(signed_text(ts) =~= seq![sign_char(ts[0].0)] + ts[0].1);
    } else {
        lemma_signed_last(tail);
        assert(tail.last() == ts.last());
    }
}

/// The written form is the first token as a part, then the others spaced;
/// trimmed and without spaces it is the first part, then the others signed.
proof fn lemma_written_form(e: LinExpr)
    requires
        e.wf(),
        e.normalized(),
        e.constant != i64::MIN,
        readable_entries(e),
    ensures
        expr_tokens(e).len() > 0,
        plain_tokens(expr_tokens(e)),
        e.text() == part_text(expr_tokens(e)[0]) + spaced_text(expr_tokens(e).drop_first()),
        without_spaces(trim_spec(e.text())) == part_text(expr_tokens(e)[0]) + signed_text(
            expr_tokens(e).drop_first(),
        ),
{
    reveal_strlit("+ -");
    let toks = expr_tokens(e);
    lemma_fold_expr(e);
    lemma_parts(e);
    lemma_plain_tail(toks);
    let parts = e.text_parts();
    let t0 = toks[0];
    let tail = toks.drop_first();
    let part0 = part_text(t0);
    assert(parts[0] == part0);
    lemma_join_front(parts, " + "@);
    assert forall|i: int| 0 <= i < parts.drop_first().len() implies #[trigger] parts.drop_first()[i] == part_text(
        tail[i],
    ) by {
        assert(parts.drop_first()[i] == parts[i + 1]);
        assert(tail[i] == toks[i + 1]);
    }
    lemma_replace_rest(parts.drop_first(), tail);
    assert('-' as u32 == 45);
    assert(!is_white_space('-'));
    assert forall|i: int| 0 <= i < part0.len() implies #[trigger] part0[i] != '+' && !is_white_space(part0[i]) by {
        if t0.0 {
            if i > 0 {
                assert(part0[i] == t0.1[i - 1]);
            }
        }
    }
    lemma_replace_skip(part0, rest_join(parts.drop_first(), " + "@), "+ -"@, "- "@);
    let text = e.text();
    assert(text == part0 + spaced_text(tail));
    assert(part0.len() > 0);
    assert(text[0] == part0[0]);
    assert(part0.last() == t0.1.last());
    if tail.len() == 0 {
        assert(spaced_text(tail).len() == 0);
        assert(text =~= part0);
        assert(!is_white_space(t0.1[t0.1.len() - 1]));
    } else {
        lemma_spaced_last(tail);
        assert(text.last() == tail.last().1.last());
        assert(tail.last() == tail[tail.len() - 1]);
        assert(no_white_space(tail[tail.len() - 1].1));
        assert(!is_white_space(tail.last().1[tail.last().1.len() - 1]));
    }
    lemma_trim_none(text);
    lemma_ws_concat(part0, spaced_text(tail));
    lemma_ws_none(part0);
    lemma_ws_spaced(tail);
}

/// A text of the form `O(...)`, which parsing reads as the bound inside.
pub open spec fn big_o_form(s: Seq<char>) -> bool {
    is_prefix("O("@, s) && is_suffix(")"@, s)
}

/// Removing the spaces keeps a written form that is not `O(...)` so.
proof fn lemma_big_o_kept(e: LinExpr)
    requires
        e.wf(),
        e.normalized(),
        e.constant != i64::MIN,
        readable_entries(e),
        !big_o_form(e.text()),
    ensures
        !big_o_form(without_spaces(trim_spec(e.text()))),
        without_spaces(trim_spec(e.text())) != "O(1)"@,
        without_spaces(trim_spec(e.text())).len() > 0,
{
    reveal_strlit("O(");
    reveal_strlit(")");
    reveal_strlit("O(1)");
    lemma_written_form(e);
    let toks = expr_tokens(e);
    let t0 = toks[0];
    let tail = toks.drop_first();
    let part0 = part_text(t0);
    let text = e.text();
    let s = without_spaces(trim_spec(text));
    lemma_plain_tail(toks);
    assert(part0.len() > 0);
    if big_o_form(s) {
        assert(s.take(2) == "O("@);
        assert(s.take(2)[0] == s[0] && s.take(2)[1] == s[1]);
        assert("O("@[0] == 'O' && "O("@[1] == '(');
        assert(s[0] == 'O' && s[1] == '(');
        assert(text[0] == s[0]);
        if part0.len() >= 2 {
            assert(text[1] == s[1]);
        } else {
            assert(tail.len() > 0);
            lemma_signed_last(tail);
            assert(s[1] == signed_text(tail)[0]);
            assert(false);
        }
        assert(text.take(2) =~= "O("@);
        assert(s.skip(s.len() - 1) == ")"@);
        assert(s.skip(s.len() - 1)[0] == s.last());
        assert(")"@[0] == ')');
        assert(s.last() == ')');
        if tail.len() == 0 {
            assert(signed_text(tail).len() == 0);
            assert(spaced_text(tail).len() == 0);
            assert(s =~= text);
        } else {
            lemma_signed_last(tail);
            lemma_spaced_last(tail);
            assert(s.last() == signed_text(tail).last());
            assert(text.last() == spaced_text(tail).last());
        }
        assert(text.skip(text.len() - 1) =~= ")"@);
        assert(big_o_form(text));
    }
    if s == "O(1)"@ {
        assert(s.take(2) =~= "O("@);
        assert(s.skip(3) =~= ")"@);
    }
}

/// Scanning the written form without spaces reads the tokens in turn.
proof fn lemma_scan_written(e: LinExpr)
    requires
        e.wf(),
        e.normalized(),
        e.constant != i64::MIN,
        readable_entries(e),
    ensures
        scan_spec(without_spaces(trim_spec(e.text())), Seq::empty(), 1, (0int, Map::<Seq<char>, int>::empty()))
            == fold_tokens(expr_tokens(e), (0int, Map::<Seq<char>, int>::empty())),
{
    lemma_written_form(e);
    let toks = expr_tokens(e);
    let t0 = toks[0];
    let tail = toks.drop_first();
    let s = without_spaces(trim_spec(e.text()));
    lemma_plain_tail(toks);
    let acc0 = (0int, Map::<Seq<char>, int>::empty());
    if t0.0 {
        assert(s =~= signed_text(toks));
        lemma_scan_tokens(toks, Seq::empty(), 1, acc0);
    } else {
        assert(s =~= t0.1 + signed_text(tail));
        lemma_scan_body(t0.1, signed_text(tail), Seq::empty(), 1, acc0);
        assert(Seq::<char>::empty() + t0.1 =~= t0.1);
        lemma_scan_tokens(tail, t0.1, 1, acc0);
    }
}

/// Reading back what is written: for an expression stored without zero
/// terms, whose constant and coefficients are not `i64::MIN`, whose names are
/// readable (non-empty, without white space, `+`, `-` or `*`, and not
/// numbers), and whose written form is not of the form `O(...)`, parsing the
/// written form gives its constant and coefficients, and any expression
/// parsing can return there is the same expression, entry for entry.
pub proof fn lemma_written_expr_reads_back(e: LinExpr)
    requires
        e.wf(),
        e.normalized(),
        e.constant != i64::MIN,
        readable_entries(e),
        !big_o_form(e.text()),
    ensures
        parse_spec(e.text()) == Some(
            Ok::<(int, Map<Seq<char>, int>), crate::expr::TermError>((e.constant as int, e.canon())),
        ),
        forall|r: LinExpr| parse_matches(Ok(r), parse_spec(e.text())) ==> same_expr(r, e),
{
    lemma_big_o_kept(e);
    lemma_scan_written(e);
    lemma_fold_expr(e);
    assert(parse_body(e.text()) == without_spaces(trim_spec(e.text())));
    assert(parse_spec(e.text()) == Some(
        Ok::<(int, Map<Seq<char>, int>), crate::expr::TermError>((e.constant as int, e.canon())),
    ));
    assert forall|r: LinExpr| parse_matches(Ok(r), parse_spec(e.text())) implies same_expr(r, e) by {
        assert(r.canon() == e.canon());
        assert forall|n: Seq<char>| #[trigger] r.coeff_of(n) == e.coeff_of(n) by {
            if e.coeff_of(n) != 0 {
                assert(e.canon().contains_key(n));
                assert(r.canon().contains_key(n));
                assert(r.canon()[n] == r.coeff_of(n));
                assert(e.canon()[n] == e.coeff_of(n));
            } else {
                assert(!e.canon().contains_key(n));
                assert(!r.canon().contains_key(n));
            }
        }
        lemma_normal_form_unique(r, e);
    }
}

} // verus!

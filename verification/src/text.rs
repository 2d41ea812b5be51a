//! Character-level text model: string order, decimal rendering and parsing,
//! and the small string operations the analyses are built from.
use vstd::prelude::*;

verus! {

/// Outcome of a three-way comparison of two texts.
#[derive(Debug, Clone, Copy, PartialEq, Eq, Structural)]
pub enum TextOrder {
    Less,
    Equal,
    Greater,
}

/// Lexicographic order on character sequences (the order of `String`).
pub open spec fn seq_lt(a: Seq<char>, b: Seq<char>) -> bool
    decreases a.len(),
{
    if a.len() == 0 {
        b.len() > 0
    } else if b.len() == 0 {
        false
    } else if a[0] == b[0] {
        seq_lt(a.drop_first(), b.drop_first())
    } else {
        (a[0] as int) < (b[0] as int)
    }
}

pub proof fn lemma_seq_lt_irrefl(a: Seq<char>)
    ensures
        !seq_lt(a, a),
    decreases a.len(),
{
    if a.len() > 0 {
        lemma_seq_lt_irrefl(a.drop_first());
    }
}

pub proof fn lemma_seq_lt_trans(a: Seq<char>, b: Seq<char>, c: Seq<char>)
    requires
        seq_lt(a, b),
        seq_lt(b, c),
    ensures
        seq_lt(a, c),
    decreases a.len(),
{
    if a.len() > 0 && b.len() > 0 && c.len() > 0 {
        if a[0] == b[0] && b[0] == c[0] {
            lemma_seq_lt_trans(a.drop_first(), b.drop_first(), c.drop_first());
        }
    }
}

pub proof fn lemma_seq_lt_total(a: Seq<char>, b: Seq<char>)
    ensures
        seq_lt(a, b) || seq_lt(b, a) || a == b,
    decreases a.len(),
{
    if a.len() > 0 && b.len() > 0 {
        if a[0] == b[0] {
            lemma_seq_lt_total(a.drop_first(), b.drop_first());
            if a.drop_first() == b.drop_first() {
                assert(a =~= seq![a[0]] + a.drop_first());
                assert(b =~= seq![b[0]] + b.drop_first());
            }
        } else {
            assert((a[0] as int) != (b[0] as int));
        }
    } else if a.len() == 0 && b.len() == 0 {
        assert(a =~= b);
    }
}

pub proof fn lemma_seq_lt_asym(a: Seq<char>, b: Seq<char>)
    requires
        seq_lt(a, b),
    ensures
        !seq_lt(b, a),
{
    if seq_lt(b, a) {
        lemma_seq_lt_trans(a, b, a);
        lemma_seq_lt_irrefl(a);
    }
}

/// Comparing past a common prefix of length `i` is comparing the rests.
pub proof fn lemma_seq_lt_skip(a: Seq<char>, b: Seq<char>, i: int)
    requires
        0 <= i <= a.len(),
        i <= b.len(),
        a.take(i) == b.take(i),
    ensures
        seq_lt(a, b) == seq_lt(a.skip(i), b.skip(i)),
    decreases i,
{
    if i > 0 {
        assert(a[0] == a.take(i)[0]);
        assert(b[0] == b.take(i)[0]);
        assert(a.drop_first().take(i - 1) =~= a.take(i).drop_first());
        assert(b.drop_first().take(i - 1) =~= b.take(i).drop_first());
        lemma_seq_lt_skip(a.drop_first(), b.drop_first(), i - 1);
        assert(a.drop_first().skip(i - 1) =~= a.skip(i));
        assert(b.drop_first().skip(i - 1) =~= b.skip(i));
    } else {
        assert(a.skip(0) =~= a);
        assert(b.skip(0) =~= b);
    }
}

/// Number of characters of a text.
pub fn char_len(s: &str) -> (n: usize)
    ensures
        n == s@.len(),
{
    s.unicode_len()
}

/// Character at a position of a text.
pub fn char_at(s: &str, i: usize) -> (c: char)
    requires
        i < s@.len(),
    ensures
        c == s@[i as int],
{
    s.get_char(i)
}

/// Lexicographic three-way comparison of two texts.
pub fn compare_text(a: &str, b: &str) -> (r: TextOrder)
    ensures
        r == TextOrder::Less <==> seq_lt(a@, b@),
        r == TextOrder::Equal <==> a@ == b@,
        r == TextOrder::Greater <==> seq_lt(b@, a@),
{
    let la = char_len(a);
    let lb = char_len(b);
    let mut i: usize = 0;
    while i < la && i < lb
        invariant
            la == a@.len(),
            lb == b@.len(),
            i <= la,
            i <= lb,
            a@.take(i as int) == b@.take(i as int),
        decreases la - i,
    {
        let ca = char_at(a, i);
        let cb = char_at(b, i);
        if ca != cb {
            proof {
                lemma_seq_lt_skip(a@, b@, i as int);
                lemma_seq_lt_skip(b@, a@, i as int);
                assert(a@.skip(i as int)[0] == ca);
                assert(b@.skip(i as int)[0] == cb);
                if a@ == b@ {
                    assert(a@[i as int] == b@[i as int]);
                }
            }
            if (ca as u32) < (cb as u32) {
                return TextOrder::Less;
            } else {
                return TextOrder::Greater;
            }
        }
        assert(a@.take(i + 1) =~= a@.take(i as int).push(ca));
        assert(b@.take(i + 1) =~= b@.take(i as int).push(cb));
        i = i + 1;
    }
    proof {
        lemma_seq_lt_skip(a@, b@, i as int);
        lemma_seq_lt_skip(b@, a@, i as int);
        lemma_seq_lt_irrefl(a@);
    }
    if la == lb {
        assert(a@ =~= a@.take(i as int));
        assert(b@ =~= b@.take(i as int));
        TextOrder::Equal
    } else if la < lb {
        proof {
            if a@ == b@ {
                assert(a@.len() == b@.len());
            }
        }
        TextOrder::Less
    } else {
        proof {
            if a@ == b@ {
                assert(a@.len() == b@.len());
            }
        }
        TextOrder::Greater
    }
}

/// Whether two texts hold the same characters.
pub fn text_eq(a: &str, b: &str) -> (r: bool)
    ensures
        r == (a@ == b@),
{
    match compare_text(a, b) {
        TextOrder::Equal => true,
        _ => false,
    }
}

/// Appends one character to a string.
/// Calls `String::push`, which std documents as appending the character to the end.
#[verifier::external_body]
pub(crate) fn push_char(s: &mut String, c: char)
    ensures
        final(s)@ == old(s)@.push(c),
{
    s.push(c);
}

/// A fresh string holding the characters of `s`.
pub fn owned(s: &str) -> (r: String)
    ensures
        r@ == s@,
{
    String::from_str(s)
}

/// Appends the characters of `t` to `s`.
pub fn push_text(s: &mut String, t: &str)
    ensures
        final(s)@ == old(s)@ + t@,
{
    s.append(t);
}

/// The concatenation of two texts.
pub fn concat2(a: &str, b: &str) -> (r: String)
    ensures
        r@ == a@ + b@,
{
    let mut s = owned(a);
    push_text(&mut s, b);
    s
}

/// The concatenation of three texts.
pub fn concat3(a: &str, b: &str, c: &str) -> (r: String)
    ensures
        r@ == a@ + b@ + c@,
{
    let mut s = owned(a);
    push_text(&mut s, b);
    push_text(&mut s, c);
    s
}

// ---------------------------------------------------------------------------
// Decimal numbers
// ---------------------------------------------------------------------------

/// The ASCII digit of a value below ten.
pub open spec fn digit_char(d: int) -> char {
    if d == 0 {
        '0'
    } else if d == 1 {
        '1'
    } else if d == 2 {
        '2'
    } else if d == 3 {
        '3'
    } else if d == 4 {
        '4'
    } else if d == 5 {
        '5'
    } else if d == 6 {
        '6'
    } else if d == 7 {
        '7'
    } else if d == 8 {
        '8'
    } else {
        '9'
    }
}

/// Decimal digits of a natural number, most significant first.
pub open spec fn nat_text(n: nat) -> Seq<char>
    decreases n,
{
    if n < 10 {
        seq![digit_char(n as int)]
    } else {
        nat_text(n / 10).push(digit_char((n % 10) as int))
    }
}

/// Decimal rendering of an integer (`-` before negative values).
pub open spec fn int_text(n: int) -> Seq<char> {
    if n < 0 {
        seq!['-'] + nat_text((-n) as nat)
    } else {
        nat_text(n as nat)
    }
}

fn digit_of(d: u64) -> (c: char)
    requires
        d < 10,
    ensures
        c == digit_char(d as int),
{
    if d == 0 {
        '0'
    } else if d == 1 {
        '1'
    } else if d == 2 {
        '2'
    } else if d == 3 {
        '3'
    } else if d == 4 {
        '4'
    } else if d == 5 {
        '5'
    } else if d == 6 {
        '6'
    } else if d == 7 {
        '7'
    } else if d == 8 {
        '8'
    } else {
        '9'
    }
}

fn push_nat(s: &mut String, n: u64)
    ensures
        final(s)@ == old(s)@ + nat_text(n as nat),
    decreases n,
{
    if n >= 10 {
        push_nat(s, n / 10);
        let ghost mid = s@;
        push_char(s, digit_of(n % 10));
        assert(s@ =~= old(s)@ + nat_text(n as nat));
    } else {
        push_char(s, digit_of(n));
        assert(s@ =~= old(s)@ + nat_text(n as nat));
    }
}

/// Decimal rendering of an unsigned number.
pub fn u64_text(n: u64) -> (r: String)
    ensures
        r@ == nat_text(n as nat),
{
    let mut s = String::new();
    push_nat(&mut s, n);
    assert(s@ =~= nat_text(n as nat));
    s
}

/// Decimal rendering of a signed number, as `to_string` gives it.
pub fn i64_text(n: i64) -> (r: String)
    ensures
        r@ == int_text(n as int),
{
    let mut s = String::new();
    if n < 0 {
        push_char(&mut s, '-');
        let m: i128 = 0i128 - (n as i128);
        push_nat(&mut s, m as u64);
        assert(s@ =~= int_text(n as int));
    } else {
        push_nat(&mut s, n as u64);
        assert(s@ =~= int_text(n as int));
    }
    s
}

pub open spec fn is_digit(c: char) -> bool {
    48 <= (c as u32) <= 57
}

pub open spec fn digit_value(c: char) -> int {
    (c as u32) - 48
}

pub open spec fn all_digits(s: Seq<char>) -> bool {
    forall|i: int| 0 <= i < s.len() ==> is_digit(#[trigger] s[i])
}

/// Value of a run of ASCII digits.
pub open spec fn digits_value(s: Seq<char>) -> nat
    decreases s.len(),
{
    if s.len() == 0 {
        0
    } else {
        digits_value(s.drop_last()) * 10 + (digit_value(s.last()) as nat)
    }
}

/// The value std's integer parsing reads from a text: an optional `+`
/// (or `-` where `signed`) and then at least one ASCII digit.
pub open spec fn text_value(s: Seq<char>, signed: bool) -> Option<int> {
    if s.len() > 0 && s[0] == '+' {
        let body = s.drop_first();
        if body.len() > 0 && all_digits(body) {
            Some(digits_value(body) as int)
        } else {
            None
        }
    } else if signed && s.len() > 0 && s[0] == '-' {
        let body = s.drop_first();
        if body.len() > 0 && all_digits(body) {
            Some(-(digits_value(body) as int))
        } else {
            None
        }
    } else if s.len() > 0 && all_digits(s) {
        Some(digits_value(s) as int)
    } else {
        None
    }
}

/// What `str::parse::<T>` gives for an integer type with range `[lo, hi]`.
pub open spec fn parse_int_spec(s: Seq<char>, signed: bool, lo: int, hi: int) -> Option<int> {
    match text_value(s, signed) {
        Some(v) => if lo <= v <= hi {
            Some(v)
        } else {
            None
        },
        None => None,
    }
}

const DIGIT_CAP: u128 = 18_446_744_073_709_551_617u128;

/// Reads the digits of `s` from `start` on; `None` when a non-digit occurs
/// or there is none; otherwise the value capped at `DIGIT_CAP`.
fn read_digits(s: &str, start: usize) -> (r: Option<u128>)
    requires
        start <= s@.len(),
    ensures
        match r {
            Some(v) => s@.skip(start as int).len() > 0 && all_digits(s@.skip(start as int)) && v as int
                == if digits_value(s@.skip(start as int)) < DIGIT_CAP as int {
                    digits_value(s@.skip(start as int)) as int
                } else {
                    DIGIT_CAP as int
                },
            None => !(s@.skip(start as int).len() > 0 && all_digits(s@.skip(start as int))),
        },
{
    let n = char_len(s);
    if start >= n {
        return None;
    }
    let ghost body = s@.skip(start as int);
    let mut acc: u128 = 0;
    let mut i: usize = start;
    while i < n
        invariant
            n == s@.len(),
            start <= i <= n,
            body == s@.skip(start as int),
            all_digits(body.take(i - start)),
            acc as int == if digits_value(body.take(i - start)) < DIGIT_CAP as int {
                digits_value(body.take(i - start)) as int
            } else {
                DIGIT_CAP as int
            },
        decreases n - i,
    {
        let c = char_at(s, i);
        if !((c as u32) >= 48 && (c as u32) <= 57) {
            assert(body[i - start] == c);
            return None;
        }
        let d = ((c as u32) - 48) as u128;
        let ghost pre = body.take(i - start);
        let ghost next = body.take(i - start + 1);
        assert(next.drop_last() =~= pre);
        assert(next.last() == c);
        let t = acc * 10 + d;
        acc = if t < DIGIT_CAP {
            t
        } else {
            DIGIT_CAP
        };
        assert(all_digits(next)) by {
            assert forall|j: int| 0 <= j < next.len() implies is_digit(#[trigger] next[j]) by {
                if j < pre.len() {
                    assert(next[j] == pre[j]);
                }
            }
        }
        i = i + 1;
    }
    assert(body.take(n - start) =~= body);
    Some(acc)
}

/// `str::parse::<i64>`.
pub fn parse_i64(s: &str) -> (r: Option<i64>)
    ensures
        match r {
            Some(v) => parse_int_spec(s@, true, i64::MIN as int, i64::MAX as int) == Some(v as int),
            None => parse_int_spec(s@, true, i64::MIN as int, i64::MAX as int) is None,
        },
{
    let n = char_len(s);
    if n == 0 {
        return None;
    }
    let c0 = char_at(s, 0);
    if c0 == '+' {
        assert(s@.skip(1) =~= s@.drop_first());
        match read_digits(s, 1) {
            Some(v) => if v <= 9_223_372_036_854_775_807u128 {
                Some(v as i64)
            } else {
                None
            },
            None => None,
        }
    } else if c0 == '-' {
        assert(s@.skip(1) =~= s@.drop_first());
        match read_digits(s, 1) {
            Some(v) => if v <= 9_223_372_036_854_775_808u128 {
                Some((0i128 - (v as i128)) as i64)
            } else {
                None
            },
            None => None,
        }
    } else {
        assert(s@.skip(0) =~= s@);
        match read_digits(s, 0) {
            Some(v) => if v <= 9_223_372_036_854_775_807u128 {
                Some(v as i64)
            } else {
                None
            },
            None => None,
        }
    }
}

/// `str::parse` for an unsigned integer type whose largest value is `max`.
pub fn parse_unsigned(s: &str, max: u64) -> (r: Option<u64>)
    ensures
        match r {
            Some(v) => parse_int_spec(s@, false, 0, max as int) == Some(v as int),
            None => parse_int_spec(s@, false, 0, max as int) is None,
        },
{
    let n = char_len(s);
    if n == 0 {
        return None;
    }
    let c0 = char_at(s, 0);
    let start: usize = if c0 == '+' {
        1
    } else {
        0
    };
    assert(s@.skip(1) =~= s@.drop_first());
    assert(s@.skip(0) =~= s@);
    match read_digits(s, start) {
        Some(v) => if v <= max as u128 {
            Some(v as u64)
        } else {
            None
        },
        None => None,
    }
}

// ---------------------------------------------------------------------------
// Whitespace and character classes
// ---------------------------------------------------------------------------

/// The Unicode `White_Space` property, which `char::is_whitespace` tests.
pub open spec fn is_white_space(c: char) -> bool {
    let u = c as u32;
    (9 <= u <= 13) || u == 32 || u == 0x85 || u == 0xA0 || u == 0x1680 || (0x2000 <= u <= 0x200A)
        || u == 0x2028 || u == 0x2029 || u == 0x202F || u == 0x205F || u == 0x3000
}

pub fn white_space(c: char) -> (r: bool)
    ensures
        r == is_white_space(c),
{
    let u = c as u32;
    (9 <= u && u <= 13) || u == 32 || u == 0x85 || u == 0xA0 || u == 0x1680 || (0x2000 <= u && u
        <= 0x200A) || u == 0x2028 || u == 0x2029 || u == 0x202F || u == 0x205F || u == 0x3000
}

pub open spec fn is_ascii_alpha(c: char) -> bool {
    let u = c as u32;
    (65 <= u <= 90) || (97 <= u <= 122)
}

pub open spec fn is_ascii_alnum(c: char) -> bool {
    is_ascii_alpha(c) || is_digit(c)
}

pub fn ascii_alpha(c: char) -> (r: bool)
    ensures
        r == is_ascii_alpha(c),
{
    let u = c as u32;
    (65 <= u && u <= 90) || (97 <= u && u <= 122)
}

pub fn ascii_digit(c: char) -> (r: bool)
    ensures
        r == is_digit(c),
{
    let u = c as u32;
    48 <= u && u <= 57
}

/// Index of the first character that is not white space (or the length).
pub open spec fn trim_start_index(s: Seq<char>) -> int
    decreases s.len(),
{
    if s.len() > 0 && is_white_space(s[0]) {
        1 + trim_start_index(s.drop_first())
    } else {
        0
    }
}

/// Number of characters kept once trailing white space is dropped.
pub open spec fn trim_end_len(s: Seq<char>) -> int
    decreases s.len(),
{
    if s.len() > 0 && is_white_space(s.last()) {
        trim_end_len(s.drop_last())
    } else {
        s.len() as int
    }
}

/// `str::trim`: leading and trailing white space removed.
pub open spec fn trim_spec(s: Seq<char>) -> Seq<char> {
    let t = s.skip(trim_start_index(s));
    t.take(trim_end_len(t))
}

proof fn lemma_trim_start_bounds(s: Seq<char>)
    ensures
        0 <= trim_start_index(s) <= s.len(),
    decreases s.len(),
{
    if s.len() > 0 && is_white_space(s[0]) {
        lemma_trim_start_bounds(s.drop_first());
    }
}

proof fn lemma_trim_end_bounds(s: Seq<char>)
    ensures
        0 <= trim_end_len(s) <= s.len(),
    decreases s.len(),
{
    if s.len() > 0 && is_white_space(s.last()) {
        lemma_trim_end_bounds(s.drop_last());
    }
}

pub fn trim(s: &str) -> (r: String)
    ensures
        r@ == trim_spec(s@),
{
    let n = char_len(s);
    let mut i: usize = 0;
    proof {
        lemma_trim_start_bounds(s@);
        assert(s@.skip(0) =~= s@);
    }
    while i < n && white_space(char_at(s, i))
        invariant
            n == s@.len(),
            i <= n,
            trim_start_index(s@) == i + trim_start_index(s@.skip(i as int)),
        decreases n - i,
    {
        proof {
            assert(s@.skip(i as int).drop_first() =~= s@.skip(i + 1));
            assert(s@.skip(i as int)[0] == s@[i as int]);
        }
        i = i + 1;
    }
    proof {
        if i < n {
            assert(s@.skip(i as int)[0] == s@[i as int]);
        } else {
            assert(s@.skip(i as int).len() == 0);
        }
    }
    let ghost t = s@.skip(i as int);
    let mut j: usize = n;
    proof {
        assert(t.take(j - i) =~= t);
    }
    while j > i && white_space(char_at(s, j - 1))
        invariant
            n == s@.len(),
            i <= j <= n,
            t == s@.skip(i as int),
            trim_end_len(t) == trim_end_len(t.take(j - i)),
        decreases j,
    {
        proof {
            let u = t.take(j - i);
            assert(u.last() == s@[j - 1]);
            assert(u.drop_last() =~= t.take(j - 1 - i));
        }
        j = j - 1;
    }
    proof {
        let u = t.take(j - i);
        lemma_trim_end_bounds(u);
        if j > i {
            assert(u.last() == s@[j - 1]);
        }
        assert(trim_end_len(t) == j - i);
    }
    let r = owned(s.substring_char(i, j));
    assert(r@ =~= trim_spec(s@));
    r
}

// ---------------------------------------------------------------------------
// Searching, splitting, replacing
// ---------------------------------------------------------------------------

pub open spec fn is_prefix(p: Seq<char>, s: Seq<char>) -> bool {
    p.len() <= s.len() && s.take(p.len() as int) == p
}

pub open spec fn is_suffix(p: Seq<char>, s: Seq<char>) -> bool {
    p.len() <= s.len() && s.skip(s.len() - p.len()) == p
}

pub fn starts_with(s: &str, p: &str) -> (r: bool)
    ensures
        r == is_prefix(p@, s@),
{
    let n = char_len(s);
    let m = char_len(p);
    if m > n {
        return false;
    }
    let head = s.substring_char(0, m);
    text_eq(head, p)
}

pub fn ends_with(s: &str, p: &str) -> (r: bool)
    ensures
        r == is_suffix(p@, s@),
{
    let n = char_len(s);
    let m = char_len(p);
    if m > n {
        return false;
    }
    let tail = s.substring_char(n - m, n);
    text_eq(tail, p)
}

/// `str::strip_prefix`.
pub fn strip_prefix(s: &str, p: &str) -> (r: Option<String>)
    ensures
        match r {
            Some(t) => is_prefix(p@, s@) && t@ == s@.skip(p@.len() as int),
            None => !is_prefix(p@, s@),
        },
{
    if starts_with(s, p) {
        let n = char_len(s);
        let m = char_len(p);
        Some(owned(s.substring_char(m, n)))
    } else {
        None
    }
}

/// `str::strip_suffix`.
pub fn strip_suffix(s: &str, p: &str) -> (r: Option<String>)
    ensures
        match r {
            Some(t) => is_suffix(p@, s@) && t@ == s@.take(s@.len() - p@.len()),
            None => !is_suffix(p@, s@),
        },
{
    if ends_with(s, p) {
        let n = char_len(s);
        let m = char_len(p);
        Some(owned(s.substring_char(0, n - m)))
    } else {
        None
    }
}

/// Index of the first occurrence of `c`, if any.
pub open spec fn first_index_of(s: Seq<char>, c: char) -> Option<int> {
    if exists|i: int| 0 <= i < s.len() && s[i] == c {
        let i = choose|i: int| 0 <= i < s.len() && s[i] == c && forall|j: int| 0 <= j < i ==> s[j] != c;
        Some(i)
    } else {
        None
    }
}

pub fn find_char(s: &str, c: char) -> (r: Option<usize>)
    ensures
        match r {
            Some(i) => i < s@.len() && s@[i as int] == c && forall|j: int| 0 <= j < i ==> s@[j] != c,
            None => forall|j: int| 0 <= j < s@.len() ==> s@[j] != c,
        },
{
    let n = char_len(s);
    let mut i: usize = 0;
    while i < n
        invariant
            n == s@.len(),
            i <= n,
            forall|j: int| 0 <= j < i ==> s@[j] != c,
        decreases n - i,
    {
        if char_at(s, i) == c {
            return Some(i);
        }
        i = i + 1;
    }
    None
}

/// `str::split_once` on a character: the text before and after its first occurrence.
pub open spec fn split_once_spec(s: Seq<char>, c: char) -> Option<(Seq<char>, Seq<char>)> {
    if exists|i: int| 0 <= i < s.len() && s[i] == c {
        let i = choose|i: int| 0 <= i < s.len() && s[i] == c && forall|j: int| 0 <= j < i ==> s[j] != c;
        Some((s.take(i), s.skip(i + 1)))
    } else {
        None
    }
}

pub proof fn lemma_first_index_unique(s: Seq<char>, c: char, i: int)
    requires
        0 <= i < s.len(),
        s[i] == c,
        forall|j: int| 0 <= j < i ==> s[j] != c,
    ensures
        split_once_spec(s, c) == Some((s.take(i), s.skip(i + 1))),
{
    let k = choose|k: int| 0 <= k < s.len() && s[k] == c && forall|j: int| 0 <= j < k ==> s[j] != c;
    assert(0 <= k < s.len() && s[k] == c && forall|j: int| 0 <= j < k ==> s[j] != c);
    if k < i {
        assert(s[k] != c);
    }
    if i < k {
        assert(s[i] != c);
    }
    assert(k == i);
}

pub fn split_once_char(s: &str, c: char) -> (r: Option<(String, String)>)
    ensures
        match r {
            Some((a, b)) => split_once_spec(s@, c) == Some((a@, b@)),
            None => split_once_spec(s@, c) is None,
        },
{
    match find_char(s, c) {
        Some(i) => {
            let n = char_len(s);
            let a = owned(s.substring_char(0, i));
            let b = owned(s.substring_char(i + 1, n));
            proof {
                lemma_first_index_unique(s@, c, i as int);
            }
            Some((a, b))
        },
        None => None,
    }
}

/// `str::replace` with a non-empty pattern: leftmost, non-overlapping.
pub open spec fn replace_spec(s: Seq<char>, p: Seq<char>, q: Seq<char>) -> Seq<char>
    decreases s.len(),
{
    if p.len() == 0 || s.len() < p.len() {
        s
    } else if s.take(p.len() as int) == p {
        q + replace_spec(s.skip(p.len() as int), p, q)
    } else {
        seq![s[0]] + replace_spec(s.drop_first(), p, q)
    }
}

pub fn replace_text(s: &str, p: &str, q: &str) -> (r: String)
    requires
        p@.len() > 0,
    ensures
        r@ == replace_spec(s@, p@, q@),
{
    let n = char_len(s);
    let m = char_len(p);
    let mut out = String::new();
    let mut i: usize = 0;
    assert(s@.skip(0) =~= s@);
    while i < n
        invariant
            n == s@.len(),
            m == p@.len(),
            m > 0,
            i <= n,
            out@ + replace_spec(s@.skip(i as int), p@, q@) == replace_spec(s@, p@, q@),
        decreases n - i,
    {
        let ghost rest = s@.skip(i as int);
        if n - i < m {
            proof {
                assert(replace_spec(rest, p@, q@) == rest);
            }
            push_text(&mut out, s.substring_char(i, n));
            assert(s@.skip(n as int).len() == 0);
            assert(replace_spec(s@.skip(n as int), p@, q@) =~= s@.skip(n as int));
            assert(out@ + replace_spec(s@.skip(n as int), p@, q@) =~= replace_spec(s@, p@, q@));
            i = n;
        } else {
            let window = s.substring_char(i, i + m);
            assert(window@ =~= rest.take(m as int));
            if text_eq(window, p) {
                push_text(&mut out, q);
                assert(rest.skip(m as int) =~= s@.skip(i + m));
                assert(out@ + replace_spec(s@.skip(i + m), p@, q@) =~= replace_spec(s@, p@, q@));
                i = i + m;
            } else {
                let c = char_at(s, i);
                push_char(&mut out, c);
                assert(rest.drop_first() =~= s@.skip(i + 1));
                assert(rest[0] == c);
                assert(out@ + replace_spec(s@.skip(i + 1), p@, q@) =~= replace_spec(s@, p@, q@));
                i = i + 1;
            }
        }
    }
    assert(s@.skip(n as int).len() == 0);
    assert(replace_spec(s@.skip(n as int), p@, q@) =~= s@.skip(n as int));
    assert(out@ =~= replace_spec(s@, p@, q@));
    out
}

/// All spaces (`' '`) removed.
pub open spec fn without_spaces(s: Seq<char>) -> Seq<char>
    decreases s.len(),
{
    if s.len() == 0 {
        s
    } else if s.last() == ' ' {
        without_spaces(s.drop_last())
    } else {
        without_spaces(s.drop_last()).push(s.last())
    }
}

/// `s.replace(' ', "")`.
pub fn remove_spaces(s: &str) -> (r: String)
    ensures
        r@ == without_spaces(s@),
{
    let n = char_len(s);
    let mut out = String::new();
    let mut i: usize = 0;
    while i < n
        invariant
            n == s@.len(),
            i <= n,
            out@ == without_spaces(s@.take(i as int)),
        decreases n - i,
    {
        let c = char_at(s, i);
        assert(s@.take(i + 1).drop_last() =~= s@.take(i as int));
        if c != ' ' {
            push_char(&mut out, c);
        }
        i = i + 1;
    }
    assert(s@.take(n as int) =~= s@);
    out
}

/// Whether `p` occurs somewhere in `s`.
pub open spec fn contains_spec(s: Seq<char>, p: Seq<char>) -> bool {
    exists|i: int| 0 <= i <= s.len() - p.len() && #[trigger] s.subrange(i, i + p.len()) == p
}

/// `str::contains` with a text pattern.
pub fn contains_text(s: &str, p: &str) -> (r: bool)
    ensures
        r == contains_spec(s@, p@),
{
    let n = char_len(s);
    let m = char_len(p);
    if m > n {
        return false;
    }
    if m == 0 {
        assert(s@.subrange(0int, 0int + p@.len()) =~= p@);
        return true;
    }
    let mut i: usize = 0;
    while i <= n - m
        invariant
            n == s@.len(),
            m == p@.len(),
            m <= n,
            m >= 1,
            i <= n - m + 1,
            forall|k: int| 0 <= k < i ==> #[trigger] s@.subrange(k, k + m) != p@,
        decreases n - m + 1 - i,
    {
        let w = s.substring_char(i, i + m);
        if text_eq(w, p) {
            assert(s@.subrange(i as int, i + m) == p@);
            return true;
        }
        i = i + 1;
    }
    false
}

/// Elements joined with a separator between neighbours.
pub open spec fn join_spec(parts: Seq<Seq<char>>, sep: Seq<char>) -> Seq<char>
    decreases parts.len(),
{
    if parts.len() == 0 {
        Seq::empty()
    } else if parts.len() == 1 {
        parts[0]
    } else {
        join_spec(parts.drop_last(), sep) + sep + parts.last()
    }
}

/// The texts of a vector of strings.
pub open spec fn texts(v: Seq<String>) -> Seq<Seq<char>> {
    v.map_values(|s: String| s@)
}

/// `slice::join` on strings.
pub fn join(parts: &Vec<String>, sep: &str) -> (r: String)
    ensures
        r@ == join_spec(texts(parts@), sep@),
{
    let mut out = String::new();
    let mut i: usize = 0;
    while i < parts.len()
        invariant
            i <= parts.len(),
            out@ == join_spec(texts(parts@.take(i as int)), sep@),
        decreases parts.len() - i,
    {
        let ghost prev = texts(parts@.take(i as int));
        assert(texts(parts@.take(i + 1)).drop_last() =~= prev);
        assert(texts(parts@.take(i + 1)).last() == parts@[i as int]@);
        if i > 0 {
            push_text(&mut out, sep);
        } else {
            assert(prev.len() == 0);
        }
        push_text(&mut out, parts[i].as_str());
        i = i + 1;
    }
    assert(parts@.take(parts.len() as int) =~= parts@);
    out
}


/// `str::split_once` on a text pattern: the text before and after its first occurrence.
pub open spec fn split_once_text_spec(s: Seq<char>, p: Seq<char>) -> Option<(Seq<char>, Seq<char>)> {
    if exists|i: int| 0 <= i <= s.len() - p.len() && #[trigger] s.subrange(i, i + p.len()) == p {
        let i = choose|i: int|
            0 <= i <= s.len() - p.len() && #[trigger] s.subrange(i, i + p.len()) == p && forall|j: int|
                0 <= j < i ==> #[trigger] s.subrange(j, j + p.len()) != p;
        Some((s.take(i), s.skip(i + p.len())))
    } else {
        None
    }
}

proof fn lemma_first_occurrence_unique(s: Seq<char>, p: Seq<char>, i: int)
    requires
        0 <= i <= s.len() - p.len(),
        s.subrange(i, i + p.len()) == p,
        forall|j: int| 0 <= j < i ==> #[trigger] s.subrange(j, j + p.len()) != p,
    ensures
        split_once_text_spec(s, p) == Some((s.take(i), s.skip(i + p.len()))),
{
    let k = choose|k: int|
        0 <= k <= s.len() - p.len() && #[trigger] s.subrange(k, k + p.len()) == p && forall|j: int|
            0 <= j < k ==> #[trigger] s.subrange(j, j + p.len()) != p;
    assert(0 <= k <= s.len() - p.len() && s.subrange(k, k + p.len()) == p && forall|j: int|
        0 <= j < k ==> #[trigger] s.subrange(j, j + p.len()) != p);
    if k < i {
        assert(s.subrange(k, k + p.len()) != p);
    }
    if i < k {
        assert(s.subrange(i, i + p.len()) != p);
    }
    assert(k == i);
}

/// `str::split_once` with a text pattern.
pub fn split_once_text(s: &str, p: &str) -> (r: Option<(String, String)>)
    ensures
        match r {
            Some((a, b)) => split_once_text_spec(s@, p@) == Some((a@, b@)),
            None => split_once_text_spec(s@, p@) is None,
        },
{
    let n = char_len(s);
    let m = char_len(p);
    if m > n {
        return None;
    }
    if m == 0 {
        proof {
            assert(s@.subrange(0, 0) =~= p@);
            lemma_first_occurrence_unique(s@, p@, 0);
            assert(s@.take(0) =~= Seq::<char>::empty());
            assert(s@.skip(0) =~= s@);
        }
        return Some((String::new(), owned(s)));
    }
    let mut i: usize = 0;
    while i <= n - m
        invariant
            n == s@.len(),
            m == p@.len(),
            m <= n,
            m >= 1,
            i <= n - m + 1,
            forall|k: int| 0 <= k < i ==> #[trigger] s@.subrange(k, k + m) != p@,
        decreases n - m + 1 - i,
    {
        let w = s.substring_char(i, i + m);
        if text_eq(w, p) {
            proof {
                lemma_first_occurrence_unique(s@, p@, i as int);
            }
            let a = owned(s.substring_char(0, i));
            let b = owned(s.substring_char(i + m, n));
            return Some((a, b));
        }
        i = i + 1;
    }
    None
}

/// `str::split` on a character: the pieces between its occurrences.
pub open spec fn split_spec(s: Seq<char>, c: char) -> Seq<Seq<char>>
    decreases s.len(),
{
    match split_once_spec(s, c) {
        Some((a, rest)) => if rest.len() < s.len() {
            seq![a] + split_spec(rest, c)
        } else {
            seq![s]
        },
        None => seq![s],
    }
}

proof fn lemma_split_once_shorter(s: Seq<char>, c: char)
    ensures
        split_once_spec(s, c) matches Some((a, rest)) ==> rest.len() < s.len(),
{
    if exists|i: int| 0 <= i < s.len() && s[i] == c {
        let w = choose|i: int| 0 <= i < s.len() && s[i] == c;
        let i = choose|i: int| 0 <= i < s.len() && s[i] == c && forall|j: int| 0 <= j < i ==> s[j] != c;
        if !(0 <= i < s.len() && s[i] == c && forall|j: int| 0 <= j < i ==> s[j] != c) {
            lemma_some_first(s, c, w);
        }
    }
}

proof fn lemma_some_first(s: Seq<char>, c: char, w: int)
    requires
        0 <= w < s.len(),
        s[w] == c,
    ensures
        exists|i: int| 0 <= i < s.len() && s[i] == c && forall|j: int| 0 <= j < i ==> s[j] != c,
    decreases w,
{
    if exists|j: int| 0 <= j < w && s[j] == c {
        let j = choose|j: int| 0 <= j < w && s[j] == c;
        lemma_some_first(s, c, j);
    } else {
        assert(0 <= w < s.len() && s[w] == c && forall|j: int| 0 <= j < w ==> s[j] != c);
    }
}

/// `str::split` on a character, collected.
pub fn split_char(s: &str, c: char) -> (r: Vec<String>)
    ensures
        texts(r@) == split_spec(s@, c),
{
    let mut out: Vec<String> = Vec::new();
    let mut rest = owned(s);
    let mut done = false;
    while !done
        invariant
            !done ==> texts(out@) + split_spec(rest@, c) == split_spec(s@, c),
            done ==> texts(out@) == split_spec(s@, c),
        decreases rest@.len(), if done { 0int } else { 1int },
    {
        proof {
            lemma_split_once_shorter(rest@, c);
        }
        match split_once_char(rest.as_str(), c) {
            Some((a, b)) => {
                let ghost before = out@;
                let ghost r0 = rest@;
                out.push(a);
                assert(texts(out@) =~= texts(before).push(a@));
                assert(split_spec(r0, c) == seq![a@] + split_spec(b@, c));
                assert(texts(out@) + split_spec(b@, c) =~= texts(before) + split_spec(r0, c));
                rest = b;
            },
            None => {
                let ghost before = out@;
                let ghost r0 = rest@;
                out.push(rest);
                rest = String::new();
                assert(texts(out@) =~= texts(before).push(r0));
                assert(texts(out@) =~= texts(before) + split_spec(r0, c));
                done = true;
            },
        }
    }
    out
}

} // verus!

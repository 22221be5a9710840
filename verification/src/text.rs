//! Character-level text handling for the CSV catalogs: line and field
//! splitting, whitespace trimming, and the integer, boolean and decimal
//! number syntaxes that the fields are read with.

use vstd::prelude::*;

verus! {

broadcast use vstd::string::group_string_axioms;

/// The character views of a vector of character vectors.
pub open spec fn views(v: Seq<Vec<char>>) -> Seq<Seq<char>> {
    v.map_values(|x: Vec<char>| x@)
}

/// The characters of a string slice, in order.
pub fn chars_of(s: &str) -> (v: Vec<char>)
    ensures
        v@ == s@,
{
    let mut v: Vec<char> = Vec::new();
    for c in it: s.chars()
        invariant
            v@ == it.seq().take(it.index() as int),
    {
        v.push(c);
    }
    v
}

/// Builds a `String` from characters: `String`'s `FromIterator<&char>` impl
/// appends each character in order, so the result holds exactly `cs`.
#[verifier::external_body]
pub fn string_from_chars(cs: &[char]) -> (s: String)
    ensures
        s@ == cs@,
{
    cs.iter().collect()
}

/// Compares two string slices character by character.
pub fn str_eq(a: &str, b: &str) -> (r: bool)
    ensures
        r == (a@ == b@),
{
    let n = a.unicode_len();
    let m = b.unicode_len();
    if n != m {
        return false;
    }
    let mut i: usize = 0;
    while i < n
        invariant
            n == a@.len(),
            m == b@.len(),
            n == m,
            i <= n,
            forall|j: int| 0 <= j < i ==> a@[j] == b@[j],
        decreases n - i,
    {
        if a.get_char(i) != b.get_char(i) {
            return false;
        }
        i = i + 1;
    }
    assert(a@ =~= b@);
    true
}

/// Compares a character sequence with a string slice.
pub fn chars_eq_str(a: &[char], b: &str) -> (r: bool)
    ensures
        r == (a@ == b@),
{
    let m = b.unicode_len();
    if a.len() != m {
        return false;
    }
    let mut i: usize = 0;
    while i < m
        invariant
            m == b@.len(),
            a@.len() == m,
            i <= m,
            forall|j: int| 0 <= j < i ==> a@[j] == b@[j],
        decreases m - i,
    {
        if a[i] != b.get_char(i) {
            return false;
        }
        i = i + 1;
    }
    assert(a@ =~= b@);
    true
}

// ---------------------------------------------------------------------------
// Whitespace and trimming
// ---------------------------------------------------------------------------

/// The characters with the Unicode `White_Space` property, which is what
/// `char::is_whitespace` tests.
pub open spec fn is_ws(c: char) -> bool {
    ||| '\t' <= c <= '\r'
    ||| c == ' '
    ||| c == '\u{85}'
    ||| c == '\u{A0}'
    ||| c == '\u{1680}'
    ||| '\u{2000}' <= c <= '\u{200A}'
    ||| c == '\u{2028}'
    ||| c == '\u{2029}'
    ||| c == '\u{202F}'
    ||| c == '\u{205F}'
    ||| c == '\u{3000}'
}

pub fn is_whitespace(c: char) -> (r: bool)
    ensures
        r == is_ws(c),
{
    ('\t' <= c && c <= '\r') || c == ' ' || c == '\u{85}' || c == '\u{A0}' || c == '\u{1680}' || (
    '\u{2000}' <= c && c <= '\u{200A}') || c == '\u{2028}' || c == '\u{2029}' || c == '\u{202F}'
        || c == '\u{205F}' || c == '\u{3000}'
}

/// `s` without its leading whitespace.
pub open spec fn trim_start(s: Seq<char>) -> Seq<char>
    decreases s.len(),
{
    if s.len() > 0 && is_ws(s[0]) {
        trim_start(s.drop_first())
    } else {
        s
    }
}

/// `s` without its trailing whitespace.
pub open spec fn trim_end(s: Seq<char>) -> Seq<char>
    decreases s.len(),
{
    if s.len() > 0 && is_ws(s.last()) {
        trim_end(s.drop_last())
    } else {
        s
    }
}

/// `s` without leading and trailing whitespace, as `str::trim` gives it.
pub open spec fn trim(s: Seq<char>) -> Seq<char> {
    trim_end(trim_start(s))
}

/// A line or field that holds nothing but whitespace.
pub open spec fn is_blank(s: Seq<char>) -> bool {
    trim(s).len() == 0
}

proof fn lemma_trim_start_skip(s: Seq<char>, a: int)
    requires
        0 <= a <= s.len(),
        forall|j: int| 0 <= j < a ==> is_ws(#[trigger] s[j]),
    ensures
        trim_start(s) == trim_start(s.skip(a)),
    decreases a,
{
    if a > 0 {
        assert(s.skip(1) == s.drop_first());
        lemma_trim_start_skip(s.drop_first(), a - 1);
        assert(s.drop_first().skip(a - 1) =~= s.skip(a));
    } else {
        assert(s.skip(0) =~= s);
    }
}

proof fn lemma_trim_end_take(s: Seq<char>, b: int)
    requires
        0 <= b <= s.len(),
        forall|j: int| b <= j < s.len() ==> is_ws(#[trigger] s[j]),
    ensures
        trim_end(s) == trim_end(s.take(b)),
    decreases s.len() - b,
{
    if b < s.len() {
        assert(s.drop_last() == s.take(s.len() - 1));
        lemma_trim_end_take(s.drop_last(), b);
        assert(s.drop_last().take(b) =~= s.take(b));
    } else {
        assert(s.take(b) =~= s);
    }
}

/// The characters of `s` between its leading and trailing whitespace.
pub fn trim_chars(s: &[char]) -> (r: Vec<char>)
    ensures
        r@ == trim(s@),
{
    let n = s.len();
    let mut a: usize = 0;
    while a < n && is_whitespace(s[a])
        invariant
            n == s@.len(),
            a <= n,
            forall|j: int| 0 <= j < a ==> is_ws(#[trigger] s@[j]),
        decreases n - a,
    {
        a = a + 1;
    }
    proof {
        lemma_trim_start_skip(s@, a as int);
    }
    let mut b: usize = n;
    while b > a && is_whitespace(s[b - 1])
        invariant
            n == s@.len(),
            a <= b <= n,
            forall|j: int| b <= j < n ==> is_ws(#[trigger] s@[j]),
        decreases b,
    {
        b = b - 1;
    }
    let mut r: Vec<char> = Vec::new();
    let mut k: usize = a;
    while k < b
        invariant
            a <= k <= b <= n,
            n == s@.len(),
            r@ == s@.subrange(a as int, k as int),
        decreases b - k,
    {
        r.push(s[k]);
        k = k + 1;
    }
    proof {
        let t = s@.skip(a as int);
        assert(trim_start(t) == t);
        lemma_trim_end_take(t, (b - a) as int);
        assert(t.take((b - a) as int) =~= r@);
    }
    r
}

// ---------------------------------------------------------------------------
// Lines and fields
// ---------------------------------------------------------------------------

/// `s` without one trailing carriage return.
pub open spec fn strip_cr(s: Seq<char>) -> Seq<char> {
    if s.len() > 0 && s.last() == '\r' {
        s.drop_last()
    } else {
        s
    }
}

/// The lines of `t` after a partial line `cur`: lines end at `'\n'`, a `'\r'`
/// just before the `'\n'` is dropped, and an unterminated last line is kept
/// as it stands (the rule of `str::lines`).
pub open spec fn lines_acc(t: Seq<char>, cur: Seq<char>) -> Seq<Seq<char>>
    decreases t.len(),
{
    if t.len() == 0 {
        if cur.len() == 0 {
            Seq::empty()
        } else {
            seq![cur]
        }
    } else if t[0] == '\n' {
        seq![strip_cr(cur)] + lines_acc(t.drop_first(), Seq::empty())
    } else {
        lines_acc(t.drop_first(), cur.push(t[0]))
    }
}

/// The lines of a text, as `str::lines` yields them.
pub open spec fn lines_of(t: Seq<char>) -> Seq<Seq<char>> {
    lines_acc(t, Seq::empty())
}

proof fn lemma_lines_acc_len(t: Seq<char>, cur: Seq<char>)
    ensures
        lines_acc(t, cur).len() <= t.len() + if cur.len() > 0 { 1int } else { 0int },
    decreases t.len(),
{
    if t.len() > 0 {
        if t[0] == '\n' {
            lemma_lines_acc_len(t.drop_first(), Seq::empty());
        } else {
            lemma_lines_acc_len(t.drop_first(), cur.push(t[0]));
        }
    }
}

/// Splits a text into its lines.
pub fn split_lines(t: &[char]) -> (r: Vec<Vec<char>>)
    ensures
        views(r@) == lines_of(t@),
        r@.len() <= t@.len(),
{
    let n = t.len();
    let mut out: Vec<Vec<char>> = Vec::new();
    let mut cur: Vec<char> = Vec::new();
    let mut i: usize = 0;
    proof {
        assert(t@.skip(0) =~= t@);
        assert(views(out@) =~= Seq::<Seq<char>>::empty());
    }
    while i < n
        invariant
            n == t@.len(),
            i <= n,
            lines_of(t@) == views(out@) + lines_acc(t@.skip(i as int), cur@),
            out@.len() + (if cur@.len() > 0 { 1int } else { 0int }) <= i,
        decreases n - i,
    {
        let ghost rest = t@.skip(i as int);
        let ghost c = cur@;
        let ghost before = views(out@);
        proof {
            assert(rest.drop_first() =~= t@.skip(i + 1));
            assert(rest[0] == t@[i as int]);
        }
        if t[i] == '\n' {
            let mut line = cur;
            if line.len() > 0 && line[line.len() - 1] == '\r' {
                line.pop();
            }
            proof {
                assert(line@ =~= strip_cr(c));
            }
            out.push(line);
            cur = Vec::new();
            proof {
                assert(views(out@) =~= before.push(strip_cr(c)));
                assert(lines_acc(rest, c) == seq![strip_cr(c)] + lines_acc(rest.drop_first(), Seq::empty()));
                assert(before + lines_acc(rest, c) =~= views(out@) + lines_acc(t@.skip(i + 1), cur@));
            }
        } else {
            cur.push(t[i]);
            proof {
                assert(lines_acc(rest, c) == lines_acc(rest.drop_first(), c.push(t@[i as int])));
            }
        }
        i = i + 1;
    }
    proof {
        assert(t@.skip(n as int) =~= Seq::<char>::empty());
    }
    if cur.len() > 0 {
        let ghost c = cur@;
        let ghost before = views(out@);
        out.push(cur);
        proof {
            assert(views(out@) =~= before.push(c));
            assert(views(out@) =~= before + seq![c]);
        }
    } else {
        proof {
            assert(views(out@) + Seq::<Seq<char>>::empty() =~= views(out@));
        }
    }
    out
}


/// The pieces of `l` after a partial piece `cur`, separated at each `','`
/// (the rule of `str::split(',')`: always at least one piece).
pub open spec fn split_acc(l: Seq<char>, cur: Seq<char>) -> Seq<Seq<char>>
    decreases l.len(),
{
    if l.len() == 0 {
        seq![cur]
    } else if l[0] == ',' {
        seq![cur] + split_acc(l.drop_first(), Seq::empty())
    } else {
        split_acc(l.drop_first(), cur.push(l[0]))
    }
}

/// The comma-separated fields of a line.
pub open spec fn fields_of(l: Seq<char>) -> Seq<Seq<char>> {
    split_acc(l, Seq::empty())
}

/// Splits a line at its commas.
pub fn split_commas(l: &[char]) -> (r: Vec<Vec<char>>)
    ensures
        views(r@) == fields_of(l@),
{
    let n = l.len();
    let mut out: Vec<Vec<char>> = Vec::new();
    let mut cur: Vec<char> = Vec::new();
    let mut i: usize = 0;
    proof {
        assert(l@.skip(0) =~= l@);
        assert(views(out@) =~= Seq::<Seq<char>>::empty());
    }
    while i < n
        invariant
            n == l@.len(),
            i <= n,
            fields_of(l@) == views(out@) + split_acc(l@.skip(i as int), cur@),
        decreases n - i,
    {
        let ghost rest = l@.skip(i as int);
        let ghost c = cur@;
        let ghost before = views(out@);
        proof {
            assert(rest.drop_first() =~= l@.skip(i + 1));
            assert(rest[0] == l@[i as int]);
        }
        if l[i] == ',' {
            out.push(cur);
            cur = Vec::new();
            proof {
                assert(views(out@) =~= before.push(c));
                assert(before + split_acc(rest, c) =~= views(out@) + split_acc(l@.skip(i + 1), cur@));
            }
        } else {
            cur.push(l[i]);
        }
        i = i + 1;
    }
    proof {
        assert(l@.skip(n as int) =~= Seq::<char>::empty());
    }
    let ghost c = cur@;
    let ghost before = views(out@);
    out.push(cur);
    proof {
        assert(views(out@) =~= before + seq![c]);
    }
    out
}


// ---------------------------------------------------------------------------
// Number syntax
// ---------------------------------------------------------------------------

pub open spec fn is_digit(c: char) -> bool {
    '0' <= c <= '9'
}

pub open spec fn all_digits(s: Seq<char>) -> bool {
    forall|i: int| 0 <= i < s.len() ==> is_digit(#[trigger] s[i])
}

pub open spec fn digit_value(c: char) -> int {
    c as int - '0' as int
}

/// The value of a run of decimal digits.
pub open spec fn digits_value(s: Seq<char>) -> int
    decreases s.len(),
{
    if s.len() == 0 {
        0
    } else {
        10 * digits_value(s.drop_last()) + digit_value(s.last())
    }
}

/// Splits one leading `'+'` or `'-'` off `s`: whether it was a minus, and the rest.
pub open spec fn unsign(s: Seq<char>) -> (bool, Seq<char>) {
    if s.len() > 0 && s[0] == '-' {
        (true, s.drop_first())
    } else if s.len() > 0 && s[0] == '+' {
        (false, s.drop_first())
    } else {
        (false, s)
    }
}

/// The value of an integer written as an optional sign and one or more
/// decimal digits; `None` for any other text.
pub open spec fn int_text(s: Seq<char>) -> Option<int> {
    let ds = unsign(s).1;
    if ds.len() > 0 && all_digits(ds) {
        Some(if unsign(s).0 { -digits_value(ds) } else { digits_value(ds) })
    } else {
        None
    }
}

/// What `str::parse::<i64>` gives for `s`: the integer text's value when it
/// fits in an `i64`.
pub open spec fn i64_text(s: Seq<char>) -> Option<i64> {
    match int_text(s) {
        Some(v) => if i64::MIN <= v <= i64::MAX {
            Some(v as i64)
        } else {
            None
        },
        None => None,
    }
}

proof fn lemma_digits_value_nonneg(s: Seq<char>)
    requires
        all_digits(s),
    ensures
        digits_value(s) >= 0,
    decreases s.len(),
{
    if s.len() > 0 {
        lemma_digits_value_nonneg(s.drop_last());
    }
}

proof fn lemma_digits_value_prefix(s: Seq<char>, k: int)
    requires
        all_digits(s),
        0 <= k <= s.len(),
    ensures
        digits_value(s.take(k)) <= digits_value(s),
    decreases s.len() - k,
{
    if k == s.len() {
        assert(s.take(k) =~= s);
    } else {
        lemma_digits_value_nonneg(s.drop_last());
        lemma_digits_value_prefix(s.drop_last(), k);
        assert(s.drop_last().take(k) =~= s.take(k));
    }
}

/// Parses a decimal `i64` as `str::parse::<i64>` does: an optional sign and
/// one or more digits, within range.
pub fn parse_i64(s: &[char]) -> (r: Option<i64>)
    ensures
        r == i64_text(s@),
{
    let n = s.len();
    let mut start: usize = 0;
    let mut neg = false;
    if n > 0 && (s[0] == '-' || s[0] == '+') {
        neg = s[0] == '-';
        start = 1;
    }
    let ghost ds = unsign(s@).1;
    proof {
        assert(ds =~= s@.skip(start as int));
        assert(unsign(s@).0 == neg);
    }
    if start == n {
        return None;
    }
    let limit: u128 = 9223372036854775808;
    let mut mag: u128 = 0;
    let mut k: usize = start;
    while k < n
        invariant
            start <= k <= n,
            n == s@.len(),
            ds == s@.skip(start as int),
            ds == unsign(s@).1,
            neg == unsign(s@).0,
            all_digits(ds.take(k - start)),
            mag == digits_value(ds.take(k - start)),
            mag <= limit,
            limit == 9223372036854775808u128,
        decreases n - k,
    {
        let c = s[k];
        let ghost j = k - start;
        proof {
            assert(ds[j] == c);
        }
        if c < '0' || c > '9' {
            proof {
                assert(!is_digit(ds[j]));
                assert(!all_digits(ds));
                assert(int_text(s@) is None);
            }
            return None;
        }
        let d = (c as u32 - '0' as u32) as u128;
        proof {
            assert(ds.take(j + 1).drop_last() =~= ds.take(j));
            assert(ds.take(j + 1).last() == c);
            assert(all_digits(ds.take(j + 1)));
            assert(digit_value(c) == d);
            assert(digits_value(ds.take(j + 1)) == 10 * digits_value(ds.take(j)) + digit_value(c));
        }
        let next = mag * 10 + d;
        if next > limit {
            proof {
                if all_digits(ds) {
                    lemma_digits_value_prefix(ds, j + 1);
                    assert(digits_value(ds) > limit);
                }
                assert(i64_text(s@) is None);
            }
            return None;
        }
        mag = next;
        k = k + 1;
    }
    proof {
        assert(ds.take(n - start) =~= ds);
    }
    if neg {
        if mag == limit {
            Some(i64::MIN)
        } else {
            Some(-(mag as i64))
        }
    } else {
        if mag > 9223372036854775807u128 {
            None
        } else {
            Some(mag as i64)
        }
    }
}


pub open spec fn is_exp_mark(c: char) -> bool {
    c == 'e' || c == 'E'
}

/// A decimal mantissa: digits, optionally with one point, and at least one
/// digit on some side of the point.
pub open spec fn mantissa_ok(m: Seq<char>) -> bool {
    ||| (m.len() > 0 && all_digits(m))
    ||| exists|d: int|
        0 <= d < m.len() && m[d] == '.' && all_digits(#[trigger] m.take(d)) && all_digits(
            m.skip(d + 1),
        ) && (d > 0 || d + 1 < m.len())
}

/// An optional exponent: `e` or `E`, an optional sign, one or more digits.
pub open spec fn exponent_ok(x: Seq<char>) -> bool {
    ||| x.len() == 0
    ||| (is_exp_mark(x[0]) && unsign(x.drop_first()).1.len() > 0 && all_digits(
        unsign(x.drop_first()).1,
    ))
}

/// The capital of each lowercase letter that the special float words use.
pub open spec fn upper_of(c: char) -> char {
    if c == 'a' {
        'A'
    } else if c == 'f' {
        'F'
    } else if c == 'i' {
        'I'
    } else if c == 'n' {
        'N'
    } else if c == 't' {
        'T'
    } else if c == 'y' {
        'Y'
    } else {
        c
    }
}

fn upper(c: char) -> (r: char)
    ensures
        r == upper_of(c),
{
    if c == 'a' {
        'A'
    } else if c == 'f' {
        'F'
    } else if c == 'i' {
        'I'
    } else if c == 'n' {
        'N'
    } else if c == 't' {
        'T'
    } else if c == 'y' {
        'Y'
    } else {
        c
    }
}

/// `s` spells the lowercase word `w`, each letter in either case.
pub open spec fn ci_word(s: Seq<char>, w: Seq<char>) -> bool {
    &&& s.len() == w.len()
    &&& forall|i: int| 0 <= i < s.len() ==> s[i] == w[i] || s[i] == upper_of(w[i])
}

/// Text that `str::parse::<f64>` accepts: an optional sign, then `inf`,
/// `infinity` or `nan` in any case, or a decimal number with an optional
/// exponent.
pub open spec fn float_text(s: Seq<char>) -> bool {
    let b = unsign(s).1;
    ||| ci_word(b, "inf"@)
    ||| ci_word(b, "infinity"@)
    ||| ci_word(b, "nan"@)
    ||| exists|e: int| 0 <= e <= b.len() && mantissa_ok(#[trigger] b.take(e)) && exponent_ok(b.skip(e))
}

/// An optional sign: nothing, `+` or `-`.
pub open spec fn sign_text(s: Seq<char>) -> bool {
    s.len() == 0 || s == seq!['+'] || s == seq!['-']
}

/// Every decimal number is float text: an optional sign, digits with an
/// optional point (at least one digit before or after it), then optionally
/// `e` or `E`, an optional sign and one or more digits. A point and an
/// exponent may stand together.
pub proof fn lemma_decimal_is_float_text(
    sign: Seq<char>,
    int_part: Seq<char>,
    point: bool,
    frac: Seq<char>,
    exponent: bool,
    mark: char,
    exp_sign: Seq<char>,
    exp_digits: Seq<char>,
)
    requires
        sign_text(sign),
        all_digits(int_part),
        all_digits(frac),
        point ==> int_part.len() + frac.len() > 0,
        !point ==> int_part.len() > 0 && frac.len() == 0,
        exponent ==> (mark == 'e' || mark == 'E') && sign_text(exp_sign) && exp_digits.len() > 0
            && all_digits(exp_digits),
    ensures
        float_text(
            sign + int_part + (if point {
                seq!['.'] + frac
            } else {
                Seq::<char>::empty()
            }) + (if exponent {
                seq![mark] + exp_sign + exp_digits
            } else {
                Seq::<char>::empty()
            }),
        ),
{
    let m = int_part + (if point {
        seq!['.'] + frac
    } else {
        Seq::<char>::empty()
    });
    let x = if exponent {
        seq![mark] + exp_sign + exp_digits
    } else {
        Seq::<char>::empty()
    };
    let s = sign + int_part + (if point {
        seq!['.'] + frac
    } else {
        Seq::<char>::empty()
    }) + (if exponent {
        seq![mark] + exp_sign + exp_digits
    } else {
        Seq::<char>::empty()
    });
    let b = m + x;
    assert(s =~= sign + b);
    assert(m.len() > 0);
    assert(m[0] == '.' || is_digit(m[0])) by {
        if int_part.len() > 0 {
            assert(m[0] == int_part[0]);
        }
    }
    assert(unsign(s).1 =~= b) by {
        if sign.len() == 0 {
            assert(s =~= b);
            assert(s[0] == m[0]);
        } else {
            assert(s =~= seq![sign[0]] + b);
            assert(s.drop_first() =~= b);
        }
    }
    let e = m.len() as int;
    assert(b.take(e) =~= m);
    assert(b.skip(e) =~= x);
    assert(mantissa_ok(m)) by {
        if point {
            let d = int_part.len() as int;
            assert(m[d] == '.');
            assert(m.take(d) =~= int_part);
            assert(m.skip(d + 1) =~= frac);
        } else {
            assert(m =~= int_part);
        }
    }
    assert(exponent_ok(x)) by {
        if exponent {
            assert(x[0] == mark);
            let rest = x.drop_first();
            assert(rest =~= exp_sign + exp_digits);
            assert(is_digit(exp_digits[0]));
            if exp_sign.len() == 0 {
                assert(rest =~= exp_digits);
                assert(rest[0] == exp_digits[0]);
            } else {
                assert(rest[0] == exp_sign[0]);
                assert(rest.drop_first() =~= exp_digits);
            }
            assert(unsign(rest).1 =~= exp_digits);
        }
    }
    assert(mantissa_ok(b.take(e)) && exponent_ok(b.skip(e)));
    assert(0 <= e <= b.len());
    assert(float_text(s));
}

fn is_ci_word(b: &[char], w: &str) -> (r: bool)
    ensures
        r == ci_word(b@, w@),
{
    let m = w.unicode_len();
    if b.len() != m {
        return false;
    }
    let mut i: usize = 0;
    while i < m
        invariant
            m == w@.len(),
            b@.len() == m,
            i <= m,
            forall|j: int| 0 <= j < i ==> b@[j] == w@[j] || b@[j] == upper_of(w@[j]),
        decreases m - i,
    {
        let c = b[i];
        let wc = w.get_char(i);
        if !(c == wc || c == upper(wc)) {
            return false;
        }
        i = i + 1;
    }
    true
}

fn digits_between(b: &[char], lo: usize, hi: usize) -> (r: bool)
    requires
        lo <= hi <= b@.len(),
    ensures
        r == all_digits(b@.subrange(lo as int, hi as int)),
{
    let mut k: usize = lo;
    while k < hi
        invariant
            lo <= k <= hi <= b@.len(),
            forall|j: int| lo <= j < k ==> is_digit(#[trigger] b@[j]),
        decreases hi - k,
    {
        if b[k] < '0' || b[k] > '9' {
            proof {
                assert(b@.subrange(lo as int, hi as int)[k - lo] == b@[k as int]);
            }
            return false;
        }
        k = k + 1;
    }
    proof {
        assert forall|i: int| 0 <= i < hi - lo implies is_digit(
            #[trigger] b@.subrange(lo as int, hi as int)[i],
        ) by {
            assert(b@.subrange(lo as int, hi as int)[i] == b@[lo + i]);
        }
    }
    true
}

fn is_exponent(b: &[char], p: usize) -> (r: bool)
    requires
        p <= b@.len(),
    ensures
        r == exponent_ok(b@.skip(p as int)),
{
    let n = b.len();
    let ghost x = b@.skip(p as int);
    if p == n {
        return true;
    }
    proof {
        assert(x[0] == b@[p as int]);
        assert(x.drop_first() =~= b@.skip(p + 1));
    }
    if b[p] != 'e' && b[p] != 'E' {
        return false;
    }
    let mut q = p + 1;
    if q < n && (b[q] == '+' || b[q] == '-') {
        q = q + 1;
    }
    proof {
        assert(unsign(x.drop_first()).1 =~= b@.subrange(q as int, n as int));
    }
    q < n && digits_between(b, q, n)
}

/// Whether `s` is text that `str::parse::<f64>` accepts.
pub fn is_float_text(s: &[char]) -> (r: bool)
    ensures
        r == float_text(s@),
{
    let n = s.len();
    let mut start: usize = 0;
    if n > 0 && (s[0] == '-' || s[0] == '+') {
        start = 1;
    }
    let mut b: Vec<char> = Vec::new();
    let mut k: usize = start;
    while k < n
        invariant
            start <= k <= n,
            n == s@.len(),
            b@ == s@.subrange(start as int, k as int),
        decreases n - k,
    {
        b.push(s[k]);
        k = k + 1;
    }
    proof {
        assert(b@ =~= unsign(s@).1);
    }
    if is_ci_word(&b, "inf") || is_ci_word(&b, "infinity") || is_ci_word(&b, "nan") {
        return true;
    }
    let m = b.len();
    // The mantissa runs up to the first character that is neither a digit nor
    // a point.
    let mut p: usize = 0;
    let mut dots: usize = 0;
    let mut first_dot: usize = 0;
    let mut second_dot: usize = 0;
    while p < m && (b[p] == '.' || ('0' <= b[p] && b[p] <= '9'))
        invariant
            p <= m,
            m == b@.len(),
            forall|j: int| 0 <= j < p ==> b@[j] == '.' || is_digit(#[trigger] b@[j]),
            dots == 0 ==> forall|j: int| 0 <= j < p ==> is_digit(#[trigger] b@[j]),
            dots >= 1 ==> first_dot < p && b@[first_dot as int] == '.',
            dots >= 1 ==> forall|j: int| 0 <= j < first_dot ==> is_digit(#[trigger] b@[j]),
            dots == 1 ==> forall|j: int| first_dot < j < p ==> is_digit(#[trigger] b@[j]),
            dots >= 2 ==> first_dot < second_dot < p && b@[second_dot as int] == '.',
        decreases m - p,
    {
        if b[p] == '.' {
            if dots == 0 {
                first_dot = p;
            } else if dots == 1 {
                second_dot = p;
            }
            if dots < 2 {
                dots = dots + 1;
            }
        }
        p = p + 1;
    }
    let mant = if dots == 0 {
        p > 0
    } else if dots == 1 {
        first_dot > 0 || first_dot + 1 < p
    } else {
        false
    };
    let exp = is_exponent(&b, p);
    let ghost bs = b@;
    proof {
        let mp = bs.take(p as int);
        if dots == 0 {
            assert(all_digits(mp));
            assert(mantissa_ok(mp) == (p > 0)) by {
                if exists|d: int|
                    0 <= d < mp.len() && mp[d] == '.' && all_digits(#[trigger] mp.take(d))
                        && all_digits(mp.skip(d + 1)) && (d > 0 || d + 1 < mp.len()) {
                    let d = choose|d: int|
                        0 <= d < mp.len() && mp[d] == '.' && all_digits(#[trigger] mp.take(d))
                            && all_digits(mp.skip(d + 1)) && (d > 0 || d + 1 < mp.len());
                    assert(is_digit(mp[d]));
                }
            }
        } else if dots == 1 {
            let fd = first_dot as int;
            assert(mp[fd] == '.');
            assert(!all_digits(mp));
            assert(all_digits(mp.take(fd)) && all_digits(mp.skip(fd + 1))) by {
                assert forall|i: int| 0 <= i < mp.skip(fd + 1).len() implies is_digit(
                    #[trigger] mp.skip(fd + 1)[i],
                ) by {
                    assert(mp.skip(fd + 1)[i] == bs[fd + 1 + i]);
                }
            }
            assert(mantissa_ok(mp) == (first_dot > 0 || first_dot + 1 < p)) by {
                if mantissa_ok(mp) {
                    let d = choose|d: int|
                        0 <= d < mp.len() && mp[d] == '.' && all_digits(#[trigger] mp.take(d))
                            && all_digits(mp.skip(d + 1)) && (d > 0 || d + 1 < mp.len());
                    if d != fd {
                        assert(!is_digit(mp[d]));
                    }
                }
            }
        } else {
            let fd = first_dot as int;
            let sd = second_dot as int;
            assert(!mantissa_ok(mp)) by {
                assert(!is_digit(mp[fd]));
                assert(!all_digits(mp));
                if exists|d: int|
                    0 <= d < mp.len() && mp[d] == '.' && all_digits(#[trigger] mp.take(d))
                        && all_digits(mp.skip(d + 1)) && (d > 0 || d + 1 < mp.len()) {
                    let d = choose|d: int|
                        0 <= d < mp.len() && mp[d] == '.' && all_digits(#[trigger] mp.take(d))
                            && all_digits(mp.skip(d + 1)) && (d > 0 || d + 1 < mp.len());
                    if d < sd {
                        assert(mp.skip(d + 1)[sd - d - 1] == '.');
                    } else {
                        assert(mp.take(d)[fd] == '.');
                    }
                }
            }
        }
        // Only the split at `p` can give a well-formed number.
        assert forall|e: int|
            0 <= e <= bs.len() && mantissa_ok(#[trigger] bs.take(e)) && exponent_ok(bs.skip(e))
            implies e == p by {
            if e > p {
                assert(bs.take(e)[p as int] == bs[p as int]);
                assert(!is_digit(bs.take(e)[p as int]));
                if !all_digits(bs.take(e)) {
                    let d = choose|d: int|
                        0 <= d < bs.take(e).len() && bs.take(e)[d] == '.' && all_digits(
                            #[trigger] bs.take(e).take(d),
                        ) && all_digits(bs.take(e).skip(d + 1)) && (d > 0 || d + 1 < bs.take(
                            e,
                        ).len());
                    if d < p {
                        assert(bs.take(e).skip(d + 1)[p - d - 1] == bs[p as int]);
                    } else {
                        assert(bs.take(e).take(d)[p as int] == bs[p as int]);
                    }
                }
            } else if e < p {
                assert(bs.skip(e)[0] == bs[e]);
            }
        }
    }
    mant && exp
}

/// `s`, trimmed, is one of `True`, `true` or `1`.
pub open spec fn bool_text(s: Seq<char>) -> bool {
    trim(s) == "True"@ || trim(s) == "true"@ || trim(s) == "1"@
}

/// Reads a boolean flag: `True`, `true` or `1` after trimming; anything else
/// is false.
pub fn parse_bool(s: &[char]) -> (r: bool)
    ensures
        r == bool_text(s@),
{
    let t = trim_chars(s);
    chars_eq_str(&t, "True") || chars_eq_str(&t, "true") || chars_eq_str(&t, "1")
}

} // verus!

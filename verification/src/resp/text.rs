//! Decimal numbers and the textual forms that RESP lines carry.
//!
//! Integers follow the decimal syntax of Rust's `i64::from_str` (an optional
//! `+` or `-`, then one or more ASCII digits, value within `i64`), and are
//! written as `i64::to_string` writes them. Doubles follow the syntax that
//! Rust's `f64::from_str` documents:
//!
//! ```text
//! Float  ::= Sign? ( 'inf' | 'infinity' | 'nan' | Number )
//! Number ::= ( Digit+ | Digit+ '.' Digit* | Digit* '.' Digit+ ) Exp?
//! Exp    ::= 'e' Sign? Digit+
//! Sign   ::= [+-]
//! Digit  ::= [0-9]
//! ```
//!
//! where letters match without regard to case.

use vstd::prelude::*;
use vstd::slice::slice_subrange;

verus! {

pub open spec fn is_digit(b: u8) -> bool {
    48 <= b <= 57
}

pub open spec fn all_digits(s: Seq<u8>) -> bool {
    forall|i: int| 0 <= i < s.len() ==> #[trigger] is_digit(s[i])
}

/// The number that a string of decimal digits denotes.
pub open spec fn digits_value(s: Seq<u8>) -> nat
    decreases s.len(),
{
    if s.len() == 0 {
        0
    } else {
        digits_value(s.drop_last()) * 10 + (s.last() - 48) as nat
    }
}

/// The shortest decimal text of `n`.
pub open spec fn decimal_text(n: nat) -> Seq<u8>
    decreases n,
{
    if n < 10 {
        seq![(48 + n) as u8]
    } else {
        decimal_text(n / 10).push((48 + n % 10) as u8)
    }
}

/// The decimal text of an integer, with a leading `-` when it is negative.
pub open spec fn signed_text(n: int) -> Seq<u8> {
    if n < 0 {
        seq![45u8] + decimal_text((-n) as nat)
    } else {
        decimal_text(n as nat)
    }
}

/// What Rust's `i64::from_str` gives for a text, as a mathematical integer.
pub open spec fn parse_i64_text(s: Seq<u8>) -> Option<int> {
    let negative = s.len() > 0 && s[0] == 45;
    let digits = if s.len() > 0 && (s[0] == 45 || s[0] == 43) {
        s.drop_first()
    } else {
        s
    };
    if digits.len() == 0 || !all_digits(digits) {
        None
    } else {
        let v = if negative {
            -(digits_value(digits) as int)
        } else {
            digits_value(digits) as int
        };
        if i64::MIN <= v <= i64::MAX {
            Some(v)
        } else {
            None
        }
    }
}

/// A RESP3 big number: an optional `-` followed by one or more digits.
pub open spec fn is_big_number(s: Seq<u8>) -> bool {
    let digits = if s.len() > 0 && s[0] == 45 {
        s.drop_first()
    } else {
        s
    };
    digits.len() > 0 && all_digits(digits)
}

/// ASCII lower-casing of one byte.
pub open spec fn lower(b: u8) -> u8 {
    if 65 <= b <= 90 {
        (b + 32) as u8
    } else {
        b
    }
}

/// `s` spells `word` (given in lower case), ignoring ASCII case.
pub open spec fn is_word_ci(s: Seq<u8>, word: Seq<u8>) -> bool {
    s.len() == word.len() && forall|i: int| 0 <= i < s.len() ==> #[trigger] lower(s[i]) == word[i]
}

pub open spec fn word_inf() -> Seq<u8> {
    seq![105u8, 110, 102]
}

pub open spec fn word_infinity() -> Seq<u8> {
    seq![105u8, 110, 102, 105, 110, 105, 116, 121]
}

pub open spec fn word_nan() -> Seq<u8> {
    seq![110u8, 97, 110]
}

pub open spec fn is_sign(b: u8) -> bool {
    b == 43 || b == 45
}

pub open spec fn is_exp_mark(b: u8) -> bool {
    b == 101 || b == 69
}

/// Digits with at most one `.`, and at least one digit.
pub open spec fn is_mantissa(s: Seq<u8>) -> bool {
    &&& forall|i: int| 0 <= i < s.len() ==> is_digit(#[trigger] s[i]) || s[i] == 46
    &&& forall|i: int, j: int| 0 <= i < s.len() && 0 <= j < s.len() && #[trigger] s[i] == 46 && #[trigger] s[j] == 46 ==> i == j
    &&& exists|i: int| 0 <= i < s.len() && is_digit(#[trigger] s[i])
}

/// The part after the exponent mark: an optional sign, then one or more digits.
pub open spec fn is_exponent_digits(s: Seq<u8>) -> bool {
    let digits = if s.len() > 0 && is_sign(s[0]) {
        s.drop_first()
    } else {
        s
    };
    digits.len() > 0 && all_digits(digits)
}

/// `Number` of the grammar: a mantissa, optionally followed by `e`/`E` and an exponent.
pub open spec fn is_decimal_number(s: Seq<u8>) -> bool {
    ||| is_mantissa(s)
    ||| exists|k: int| 0 <= k < s.len() && #[trigger] is_exp_mark(s[k]) && is_mantissa(s.take(k)) && is_exponent_digits(s.skip(k + 1))
}

/// A text that Rust's `f64::from_str` accepts.
pub open spec fn is_float_text(s: Seq<u8>) -> bool {
    let body = if s.len() > 0 && is_sign(s[0]) {
        s.drop_first()
    } else {
        s
    };
    ||| is_word_ci(body, word_inf())
    ||| is_word_ci(body, word_infinity())
    ||| is_word_ci(body, word_nan())
    ||| is_decimal_number(body)
}

// ---------------------------------------------------------------------------
// Lemmas on decimal text

pub proof fn lemma_digits_value_push(s: Seq<u8>, d: u8)
    ensures
        digits_value(s.push(d)) == digits_value(s) * 10 + (d - 48) as nat,
{
    assert(s.push(d).drop_last() =~= s);
}

pub proof fn lemma_decimal_text_digits(n: nat)
    ensures
        decimal_text(n).len() > 0,
        all_digits(decimal_text(n)),
        digits_value(decimal_text(n)) == n,
    decreases n,
{
    if n < 10 {
        let t = decimal_text(n);
        assert(t == seq![(48 + n) as u8]);
        assert(t.drop_last() =~= Seq::<u8>::empty());
        assert(digits_value(Seq::<u8>::empty()) == 0);
        assert(digits_value(t) == digits_value(t.drop_last()) * 10 + (t.last() - 48) as nat);
    } else {
        lemma_decimal_text_digits(n / 10);
        let t = decimal_text(n / 10);
        let d = (48 + n % 10) as u8;
        lemma_digits_value_push(t, d);
        assert(decimal_text(n) == t.push(d));
        assert(n == (n / 10) * 10 + n % 10);
        assert forall|i: int| 0 <= i < t.push(d).len() implies #[trigger] is_digit(t.push(d)[i]) by {
            if i < t.len() {
                assert(t.push(d)[i] == t[i]);
            }
        }
    }
}

pub proof fn lemma_signed_text_parses(n: int)
    requires
        i64::MIN <= n <= i64::MAX,
    ensures
        parse_i64_text(signed_text(n)) == Some(n),
        signed_text(n).len() > 0,
        forall|i: int| 0 <= i < signed_text(n).len() ==> #[trigger] signed_text(n)[i] == 45 || is_digit(signed_text(n)[i]),
{
    if n < 0 {
        lemma_decimal_text_digits((-n) as nat);
        let t = signed_text(n);
        assert(t.drop_first() =~= decimal_text((-n) as nat));
        assert(t[0] == 45);
        assert forall|i: int| 0 <= i < t.len() implies #[trigger] t[i] == 45 || is_digit(t[i]) by {
            if i > 0 {
                assert(t[i] == decimal_text((-n) as nat)[i - 1]);
            }
        }
    } else {
        lemma_decimal_text_digits(n as nat);
        assert(is_digit(decimal_text(n as nat)[0]));
    }
}

// ---------------------------------------------------------------------------
// Executable counterparts

/// Appends the decimal text of `n`.
pub fn write_decimal(n: u128, out: &mut Vec<u8>)
    ensures
        final(out)@ == old(out)@ + decimal_text(n as nat),
    decreases n,
{
    if n >= 10 {
        write_decimal(n / 10, out);
    }
    let d: u8 = (n % 10) as u8;
    out.push(48 + d);
    proof {
        if n >= 10 {
            assert(decimal_text(n as nat) == decimal_text((n / 10) as nat).push((48 + n % 10) as u8));
        }
        assert(out@ =~= old(out)@ + decimal_text(n as nat)) by {
            if n >= 10 {
                assert(old(out)@ + decimal_text((n / 10) as nat).push((48 + n % 10) as u8) =~= (old(out)@
                    + decimal_text((n / 10) as nat)).push((48 + n % 10) as u8));
            }
        }
    }
}

/// Appends the decimal text of `n`, as `i64::to_string` writes it.
pub fn write_signed(n: i64, out: &mut Vec<u8>)
    ensures
        final(out)@ == old(out)@ + signed_text(n as int),
{
    if n < 0 {
        out.push(45);
        let magnitude: u128 = (0i128 - (n as i128)) as u128;
        write_decimal(magnitude, out);
        assert(out@ =~= old(out)@ + signed_text(n as int));
    } else {
        write_decimal(n as u128, out);
    }
}

pub fn is_digit_byte(b: u8) -> (r: bool)
    ensures
        r == is_digit(b),
{
    48 <= b && b <= 57
}

/// Parses a decimal integer as Rust's `i64::from_str` does.
pub fn parse_i64(s: &[u8]) -> (r: Option<i64>)
    ensures
        match r {
            Some(v) => parse_i64_text(s@) == Some(v as int),
            None => parse_i64_text(s@) is None,
        },
{
    let len = s.len();
    let mut start: usize = 0;
    let mut negative = false;
    if len > 0 && (s[0] == 45 || s[0] == 43) {
        start = 1;
        negative = s[0] == 45;
    }
    let ghost digits = if s@.len() > 0 && (s@[0] == 45 || s@[0] == 43) {
        s@.drop_first()
    } else {
        s@
    };
    assert(digits =~= s@.skip(start as int));
    if start == len {
        return None;
    }
    let limit: u128 = 0x8000_0000_0000_0000;
    let mut acc: u128 = 0;
    let mut big = false;
    let mut i = start;
    while i < len
        invariant
            start <= i <= len,
            len == s@.len(),
            digits =~= s@.skip(start as int),
            digits == (if s@.len() > 0 && (s@[0] == 45 || s@[0] == 43) { s@.drop_first() } else { s@ }),
            negative == (s@.len() > 0 && s@[0] == 45),
            all_digits(s@.subrange(start as int, i as int)),
            !big ==> acc == digits_value(s@.subrange(start as int, i as int)) && acc <= limit,
            big <==> digits_value(s@.subrange(start as int, i as int)) > limit,
            limit == 0x8000_0000_0000_0000,
        decreases len - i,
    {
        let b = s[i];
        if !is_digit_byte(b) {
            assert(!all_digits(digits)) by {
                assert(digits[i - start] == b);
            }
            return None;
        }
        let ghost prev = s@.subrange(start as int, i as int);
        assert(s@.subrange(start as int, i + 1) =~= prev.push(b));
        proof {
            lemma_digits_value_push(prev, b);
        }
        if !big {
            let next = acc * 10 + (b - 48) as u128;
            if next > limit {
                big = true;
            } else {
                acc = next;
            }
        } else {
            assert(digits_value(prev.push(b)) >= digits_value(prev)) by (nonlinear_arith)
                requires
                    digits_value(prev.push(b)) == digits_value(prev) * 10 + (b - 48) as nat,
            ;
        }
        i = i + 1;
    }
    assert(s@.subrange(start as int, len as int) =~= digits);
    if big {
        return None;
    }
    if negative {
        if acc == limit {
            Some(i64::MIN)
        } else {
            Some(0 - (acc as i64))
        }
    } else if acc <= 0x7fff_ffff_ffff_ffff {
        Some(acc as i64)
    } else {
        None
    }
}

pub fn lower_byte(b: u8) -> (r: u8)
    ensures
        r == lower(b),
{
    if 65 <= b && b <= 90 {
        b + 32
    } else {
        b
    }
}

/// Whether `s` spells `word` (given in lower case), ignoring ASCII case.
pub fn matches_word_ci(s: &[u8], word: &[u8]) -> (r: bool)
    ensures
        r == is_word_ci(s@, word@),
{
    if s.len() != word.len() {
        return false;
    }
    let mut i: usize = 0;
    while i < s.len()
        invariant
            s@.len() == word@.len(),
            i <= s@.len(),
            forall|j: int| 0 <= j < i ==> #[trigger] lower(s@[j]) == word@[j],
        decreases s@.len() - i,
    {
        if lower_byte(s[i]) != word[i] {
            return false;
        }
        i = i + 1;
    }
    true
}

/// Whether `s` is a mantissa: digits with at most one `.`, at least one digit.
pub fn is_mantissa_bytes(s: &[u8]) -> (r: bool)
    ensures
        r == is_mantissa(s@),
{
    let mut dot: Option<usize> = None;
    let mut digit: Option<usize> = None;
    let mut i: usize = 0;
    while i < s.len()
        invariant
            i <= s@.len(),
            forall|j: int| 0 <= j < i ==> is_digit(#[trigger] s@[j]) || s@[j] == 46,
            match dot {
                Some(p) => p < i && s@[p as int] == 46 && forall|j: int| 0 <= j < i && j != p ==> #[trigger] s@[j] != 46,
                None => forall|j: int| 0 <= j < i ==> #[trigger] s@[j] != 46,
            },
            match digit {
                Some(p) => p < i && is_digit(s@[p as int]),
                None => forall|j: int| 0 <= j < i ==> !is_digit(#[trigger] s@[j]),
            },
        decreases s@.len() - i,
    {
        let b = s[i];
        if is_digit_byte(b) {
            digit = Some(i);
        } else if b == 46 {
            if dot.is_some() {
                let p = dot.unwrap();
                assert(s@[p as int] == 46 && s@[i as int] == 46);
                return false;
            }
            dot = Some(i);
        } else {
            return false;
        }
        i = i + 1;
    }
    match digit {
        Some(p) => {
            assert(is_digit(s@[p as int]));
            true
        },
        None => false,
    }
}

/// Whether `s` is an optional sign followed by one or more digits.
pub fn is_exponent_digits_bytes(s: &[u8]) -> (r: bool)
    ensures
        r == is_exponent_digits(s@),
{
    let len = s.len();
    let start: usize = if len > 0 && (s[0] == 43 || s[0] == 45) { 1 } else { 0 };
    let ghost digits = if s@.len() > 0 && is_sign(s@[0]) { s@.drop_first() } else { s@ };
    assert(digits =~= s@.skip(start as int));
    if start == len {
        return false;
    }
    let mut i = start;
    while i < len
        invariant
            start <= i <= len,
            len == s@.len(),
            digits =~= s@.skip(start as int),
            digits == (if s@.len() > 0 && is_sign(s@[0]) { s@.drop_first() } else { s@ }),
            forall|j: int| start <= j < i ==> is_digit(#[trigger] s@[j]),
        decreases len - i,
    {
        if !is_digit_byte(s[i]) {
            assert(digits[i - start] == s@[i as int]);
            return false;
        }
        i = i + 1;
    }
    assert forall|j: int| 0 <= j < digits.len() implies #[trigger] is_digit(digits[j]) by {
        assert(digits[j] == s@[start + j]);
    }
    true
}

/// Whether `s` is a `Number` of the float grammar.
pub fn is_decimal_number_bytes(s: &[u8]) -> (r: bool)
    ensures
        r == is_decimal_number(s@),
{
    let len = s.len();
    let mut k: usize = 0;
    while k < len && !(s[k] == 101 || s[k] == 69)
        invariant
            k <= len,
            len == s@.len(),
            forall|j: int| 0 <= j < k ==> !is_exp_mark(#[trigger] s@[j]),
        decreases len - k,
    {
        k = k + 1;
    }
    if k == len {
        let r = is_mantissa_bytes(s);
        assert(!(exists|m: int| 0 <= m < s@.len() && #[trigger] is_exp_mark(s@[m]) && is_mantissa(s@.take(m)) && is_exponent_digits(s@.skip(m + 1))));
        return r;
    }
    let head = slice_subrange(s, 0, k);
    let tail = slice_subrange(s, k + 1, len);
    assert(head@ =~= s@.take(k as int));
    assert(tail@ =~= s@.skip(k + 1));
    let m = is_mantissa_bytes(head);
    let e = is_exponent_digits_bytes(tail);
    assert(!is_mantissa(s@)) by {
        assert(!is_digit(s@[k as int]) && s@[k as int] != 46);
    }
    assert forall|m2: int| 0 <= m2 < s@.len() && #[trigger] is_exp_mark(s@[m2]) && is_mantissa(s@.take(m2)) implies m2 == k by {
        if m2 > k {
            assert(s@.take(m2)[k as int] == s@[k as int]);
            assert(is_digit(s@.take(m2)[k as int]) || s@.take(m2)[k as int] == 46);
        }
    }
    assert(is_exp_mark(s@[k as int]));
    if m && e {
        assert(is_mantissa(s@.take(k as int)) && is_exponent_digits(s@.skip(k + 1)));
    }
    m && e
}

/// Whether `s` is a text that Rust's `f64::from_str` accepts.
pub fn is_float_bytes(s: &[u8]) -> (r: bool)
    ensures
        r == is_float_text(s@),
{
    let len = s.len();
    let start: usize = if len > 0 && (s[0] == 43 || s[0] == 45) { 1 } else { 0 };
    let body = slice_subrange(s, start, len);
    assert(body@ =~= (if s@.len() > 0 && is_sign(s@[0]) { s@.drop_first() } else { s@ }));
    let inf: [u8; 3] = [105, 110, 102];
    let infinity: [u8; 8] = [105, 110, 102, 105, 110, 105, 116, 121];
    let nan: [u8; 3] = [110, 97, 110];
    assert(inf@ =~= word_inf());
    assert(infinity@ =~= word_infinity());
    assert(nan@ =~= word_nan());
    if matches_word_ci(body, inf.as_slice()) || matches_word_ci(body, infinity.as_slice()) || matches_word_ci(body, nan.as_slice()) {
        return true;
    }
    is_decimal_number_bytes(body)
}

/// Whether the bytes form a RESP3 big number.
pub fn is_valid_big_number(s: &[u8]) -> (r: bool)
    ensures
        r == is_big_number(s@),
{
    let len = s.len();
    let start: usize = if len > 0 && s[0] == 45 { 1 } else { 0 };
    let ghost digits = if s@.len() > 0 && s@[0] == 45 { s@.drop_first() } else { s@ };
    assert(digits =~= s@.skip(start as int));
    if start == len {
        return false;
    }
    let mut i = start;
    while i < len
        invariant
            start <= i <= len,
            len == s@.len(),
            digits =~= s@.skip(start as int),
            digits == (if s@.len() > 0 && s@[0] == 45 { s@.drop_first() } else { s@ }),
            forall|j: int| start <= j < i ==> is_digit(#[trigger] s@[j]),
        decreases len - i,
    {
        if !is_digit_byte(s[i]) {
            assert(digits[i - start] == s@[i as int]);
            return false;
        }
        i = i + 1;
    }
    assert forall|j: int| 0 <= j < digits.len() implies #[trigger] is_digit(digits[j]) by {
        assert(digits[j] == s@[start + j]);
    }
    true
}

// ---------------------------------------------------------------------------
// Laws on float text

/// A byte that spells none of `inf`, `infinity` and `nan` in any case.
proof fn lemma_not_in_words(b: Seq<u8>, j: int)
    requires
        0 <= j < b.len(),
        lower(b[j]) == 101,
    ensures
        !is_word_ci(b, word_inf()),
        !is_word_ci(b, word_infinity()),
        !is_word_ci(b, word_nan()),
{
    if is_word_ci(b, word_inf()) {
        assert(lower(b[j]) == word_inf()[j]);
    }
    if is_word_ci(b, word_infinity()) {
        assert(lower(b[j]) == word_infinity()[j]);
    }
    if is_word_ci(b, word_nan()) {
        assert(lower(b[j]) == word_nan()[j]);
    }
}

/// A text with an exponent mark after `m` is a `Number` exactly when `m` is
/// a mantissa and what follows the mark is an exponent.
proof fn lemma_number_at_mark(m: Seq<u8>, mark: u8, x: Seq<u8>)
    requires
        is_exp_mark(mark),
    ensures
        is_decimal_number(m + seq![mark] + x) == (is_mantissa(m) && is_exponent_digits(x)),
{
    let s = m + seq![mark] + x;
    let n = m.len() as int;
    assert(s[n] == mark);
    assert(s.take(n) =~= m);
    assert(s.skip(n + 1) =~= x);
    assert(!is_mantissa(s)) by {
        assert(!is_digit(s[n]) && s[n] != 46);
    }
    if is_mantissa(m) && is_exponent_digits(x) {
        assert(is_exp_mark(s[n]) && is_mantissa(s.take(n)) && is_exponent_digits(s.skip(n + 1)));
    }
    assert forall|k: int| 0 <= k < s.len() && #[trigger] is_exp_mark(s[k]) && is_mantissa(s.take(k))
        && is_exponent_digits(s.skip(k + 1)) implies k == n by {
        if k > n {
            assert(s.take(k)[n] == mark);
            assert(is_digit(s.take(k)[n]) || s.take(k)[n] == 46);
        }
        if k < n {
            let t = s.skip(k + 1);
            let p = n - k - 1;
            assert(t[p] == mark);
            let digits = if t.len() > 0 && is_sign(t[0]) { t.drop_first() } else { t };
            if p == 0 {
                assert(digits == t);
                assert(is_digit(digits[0]));
            } else if t.len() > 0 && is_sign(t[0]) {
                assert(digits[p - 1] == mark);
                assert(is_digit(digits[p - 1]));
            } else {
                assert(is_digit(digits[p]));
            }
        }
    }
}

/// The sign of an exponent is optional: an exponent mark followed by `+` or
/// `-` and digits is accepted exactly when the same text without the sign is.
pub proof fn law_exponent_sign_is_optional(m: Seq<u8>, mark: u8, sign: u8, d: Seq<u8>)
    requires
        is_exp_mark(mark),
        is_sign(sign),
        all_digits(d),
    ensures
        is_float_text(m + seq![mark, sign] + d) == is_float_text(m + seq![mark] + d),
{
    let s1 = m + seq![mark] + d;
    let s2 = m + seq![mark, sign] + d;
    let signed = m.len() > 0 && is_sign(m[0]);
    let m0 = if signed { m.drop_first() } else { m };
    let b1 = if s1.len() > 0 && is_sign(s1[0]) { s1.drop_first() } else { s1 };
    let b2 = if s2.len() > 0 && is_sign(s2[0]) { s2.drop_first() } else { s2 };
    if m.len() == 0 {
        assert(s1[0] == mark);
        assert(s2[0] == mark);
    } else {
        assert(s1[0] == m[0]);
        assert(s2[0] == m[0]);
    }
    assert(b1 =~= m0 + seq![mark] + d);
    assert(b2 =~= m0 + seq![mark] + (seq![sign] + d));
    lemma_number_at_mark(m0, mark, d);
    lemma_number_at_mark(m0, mark, seq![sign] + d);
    assert(b1[m0.len() as int] == mark);
    assert(b2[m0.len() as int] == mark);
    lemma_not_in_words(b1, m0.len() as int);
    lemma_not_in_words(b2, m0.len() as int);
    let x = seq![sign] + d;
    assert(x.drop_first() =~= d);
    if d.len() > 0 {
        assert(!is_sign(d[0])) by {
            assert(is_digit(d[0]));
        }
    }
}

/// Digits, an exponent mark, an optional sign and digits make a float text.
pub proof fn law_digits_with_exponent_are_float(a: Seq<u8>, mark: u8, sign: u8, d: Seq<u8>)
    requires
        a.len() > 0,
        all_digits(a),
        is_exp_mark(mark),
        is_sign(sign),
        d.len() > 0,
        all_digits(d),
    ensures
        is_float_text(a + seq![mark] + d),
        is_float_text(a + seq![mark, sign] + d),
{
    let s = a + seq![mark] + d;
    assert(is_digit(a[0]));
    assert(s[0] == a[0]);
    assert(is_digit(d[0]));
    assert(is_mantissa(a)) by {
        assert(is_digit(a[0]));
        assert forall|i: int, j: int| 0 <= i < a.len() && 0 <= j < a.len() && #[trigger] a[i] == 46 && #[trigger] a[j] == 46 implies i == j by {
            assert(is_digit(a[i]));
        }
    }
    lemma_number_at_mark(a, mark, d);
    law_exponent_sign_is_optional(a, mark, sign, d);
}

} // verus!

//! Numbers in text: decimal integers, and the texts that denote a
//! floating-point number.
use vstd::prelude::*;
use vstd::slice::slice_subrange;

use crate::text::{
    ascii_lower, cut, index_of, is_text, lemma_absent, lemma_first_after, lemma_index_from,
    same_ignoring_case, split_at_char,
};

verus! {

// ---- Decimal integers -------------------------------------------------------

pub open spec fn is_digit(c: char) -> bool {
    '0' <= c <= '9'
}

pub open spec fn digit_value(c: char) -> int {
    c as int - '0' as int
}

pub open spec fn digit_char(d: int) -> char {
    ('0' as int + d) as char
}

/// Digits only; there may be none.
pub open spec fn digit_run(s: Seq<char>) -> bool {
    forall|i: int| 0 <= i < s.len() ==> is_digit(#[trigger] s[i])
}

/// The number that a run of digits denotes.
pub open spec fn run_value(s: Seq<char>) -> int
    decreases s.len(),
{
    if s.len() == 0 {
        0
    } else {
        run_value(s.drop_last()) * 10 + digit_value(s.last())
    }
}

/// The digits of `n`, without leading zeros.
pub open spec fn decimal(n: int) -> Seq<char>
    decreases n,
{
    if n < 10 {
        seq![digit_char(n)]
    } else {
        decimal(n / 10).push(digit_char(n % 10))
    }
}

/// The digits of `n`, behind a minus sign where it is negative.
pub open spec fn signed_decimal(n: int) -> Seq<char> {
    if n < 0 {
        seq!['-'] + decimal(-n)
    } else {
        decimal(n)
    }
}

/// `s` without a plus sign at its front.
pub open spec fn without_plus(s: Seq<char>) -> Seq<char> {
    if s.len() > 0 && s[0] == '+' {
        s.skip(1)
    } else {
        s
    }
}

/// The number up to `max` that `s` denotes: at least one digit, behind an
/// optional plus sign.
pub open spec fn unsigned_value(s: Seq<char>, max: int) -> Option<int> {
    let d = without_plus(s);
    if d.len() > 0 && digit_run(d) && run_value(d) <= max {
        Some(run_value(d))
    } else {
        None
    }
}

/// The `i32` that `s` denotes: at least one digit, behind an optional sign.
pub open spec fn i32_value(s: Seq<char>) -> Option<int> {
    if s.len() > 0 && s[0] == '-' {
        let d = s.skip(1);
        if d.len() > 0 && digit_run(d) && -run_value(d) >= i32::MIN {
            Some(-run_value(d))
        } else {
            None
        }
    } else {
        unsigned_value(s, i32::MAX as int)
    }
}

proof fn lemma_run_value_nonneg(s: Seq<char>)
    requires
        digit_run(s),
    ensures
        run_value(s) >= 0,
    decreases s.len(),
{
    if s.len() > 0 {
        lemma_run_value_nonneg(s.drop_last());
    }
}

/// More digits never denote a smaller number.
proof fn lemma_run_value_grows(s: Seq<char>, i: int)
    requires
        digit_run(s),
        0 <= i <= s.len(),
    ensures
        run_value(s.take(i)) <= run_value(s),
    decreases s.len(),
{
    if i < s.len() {
        lemma_run_value_grows(s.drop_last(), i);
        assert(s.drop_last().take(i) =~= s.take(i));
        lemma_run_value_nonneg(s.drop_last());
    } else {
        assert(s.take(i) =~= s);
    }
}

/// The digits of `n` denote `n`.
pub proof fn lemma_decimal(n: int)
    requires
        0 <= n,
    ensures
        decimal(n).len() > 0,
        digit_run(decimal(n)),
        run_value(decimal(n)) == n,
    decreases n,
{
    if n < 10 {
        let s = seq![digit_char(n)];
        assert(s.drop_last() =~= Seq::<char>::empty());
        assert(s.last() == digit_char(n));
        assert(run_value(s.drop_last()) == 0);
    } else {
        lemma_decimal(n / 10);
        let s = decimal(n);
        assert(s.drop_last() =~= decimal(n / 10));
        assert(s.last() == digit_char(n % 10));
        assert forall|i: int| 0 <= i < s.len() implies is_digit(#[trigger] s[i]) by {
            if i < decimal(n / 10).len() {
                assert(s[i] == decimal(n / 10)[i]);
            }
        }
    }
}

/// Reading a written number gives it back.
pub proof fn law_unsigned_round_trip(n: int, max: int)
    requires
        0 <= n <= max,
    ensures
        unsigned_value(decimal(n), max) == Some(n),
{
    lemma_decimal(n);
    assert(is_digit(decimal(n)[0]));
}

/// Reading a written `i32` gives it back.
pub proof fn law_i32_round_trip(n: int)
    requires
        i32::MIN <= n <= i32::MAX,
    ensures
        i32_value(signed_decimal(n)) == Some(n),
{
    if n < 0 {
        lemma_decimal(-n);
        assert(signed_decimal(n).skip(1) =~= decimal(-n));
    } else {
        lemma_decimal(n);
        assert(is_digit(decimal(n)[0]));
        law_unsigned_round_trip(n, i32::MAX as int);
    }
}

/// A written number holds digits and the minus sign only.
pub proof fn lemma_signed_decimal_chars(n: int)
    ensures
        forall|i: int|
            0 <= i < signed_decimal(n).len() ==> is_digit(#[trigger] signed_decimal(n)[i])
                || signed_decimal(n)[i] == '-',
        signed_decimal(n).len() > 0,
{
    if n < 0 {
        lemma_decimal(-n);
        assert forall|i: int| 0 <= i < signed_decimal(n).len() implies is_digit(
            #[trigger] signed_decimal(n)[i],
        ) || signed_decimal(n)[i] == '-' by {
            if i > 0 {
                assert(signed_decimal(n)[i] == decimal(-n)[i - 1]);
            }
        }
    } else {
        lemma_decimal(n);
    }
}

/// The number up to `max` that a run of digits denotes.
fn parse_run(s: &[char], max: u64) -> (r: Option<u64>)
    ensures
        match r {
            Some(n) => s@.len() > 0 && digit_run(s@) && run_value(s@) == n && n <= max,
            None => !(s@.len() > 0 && digit_run(s@) && run_value(s@) <= max),
        },
{
    if s.len() == 0 {
        return None;
    }
    let mut n: u64 = 0;
    let mut i: usize = 0;
    while i < s.len()
        invariant
            i <= s@.len(),
            n <= max,
            digit_run(s@.take(i as int)),
            run_value(s@.take(i as int)) == n,
        decreases s@.len() - i,
    {
        let c = s[i];
        if !('0' <= c && c <= '9') {
            assert(!is_digit(s@[i as int]));
            return None;
        }
        let d: u64 = (c as u64) - ('0' as u64);
        let ghost longer = s@.take(i + 1);
        assert(longer.drop_last() =~= s@.take(i as int));
        assert(longer.last() == c);
        if d > max || n > (max - d) / 10 {
            assert(n * 10 + d > max);
            proof {
                if digit_run(s@) {
                    lemma_run_value_grows(s@, i + 1);
                }
            }
            return None;
        }
        n = n * 10 + d;
        i += 1;
        assert forall|j: int| 0 <= j < i implies is_digit(#[trigger] s@.take(i as int)[j]) by {
            if j < i - 1 {
                assert(s@.take(i - 1)[j] == s@[j]);
            }
        }
    }
    assert(s@.take(i as int) =~= s@);
    Some(n)
}

/// The number up to `max` that `s` denotes.
pub fn parse_unsigned(s: &[char], max: u64) -> (r: Option<u64>)
    ensures
        match r {
            Some(n) => unsigned_value(s@, max as int) == Some(n as int),
            None => unsigned_value(s@, max as int) is None,
        },
{
    if s.len() > 0 && s[0] == '+' {
        let d = slice_subrange(s, 1, s.len());
        assert(d@ =~= s@.skip(1));
        parse_run(d, max)
    } else {
        parse_run(s, max)
    }
}

/// The `usize` that `s` denotes.
pub fn parse_usize(s: &[char]) -> (r: Option<usize>)
    ensures
        match r {
            Some(n) => unsigned_value(s@, usize::MAX as int) == Some(n as int),
            None => unsigned_value(s@, usize::MAX as int) is None,
        },
{
    match parse_unsigned(s, usize::MAX as u64) {
        Some(n) => Some(n as usize),
        None => None,
    }
}

/// The `i32` that `s` denotes.
pub fn parse_i32(s: &[char]) -> (r: Option<i32>)
    ensures
        match r {
            Some(n) => i32_value(s@) == Some(n as int),
            None => i32_value(s@) is None,
        },
{
    if s.len() > 0 && s[0] == '-' {
        let d = slice_subrange(s, 1, s.len());
        assert(d@ =~= s@.skip(1));
        match parse_run(d, 2147483648) {
            Some(n) => Some((0 - (n as i64)) as i32),
            None => None,
        }
    } else {
        match parse_unsigned(s, 2147483647) {
            Some(n) => Some(n as i32),
            None => None,
        }
    }
}

/// The digits of `n`.
pub fn decimal_text(n: u64) -> (r: String)
    ensures
        r@ == decimal(n as int),
    decreases n,
{
    let mut out = if n < 10 {
        String::new()
    } else {
        decimal_text(n / 10)
    };
    let d: u8 = (n % 10) as u8;
    out.push(('0' as u8 + d) as char);
    assert(out@ =~= decimal(n as int));
    out
}

/// The digits of `n`, behind a minus sign where it is negative.
pub fn signed_text(n: i64) -> (r: String)
    ensures
        r@ == signed_decimal(n as int),
{
    if n < 0 {
        let mut out = String::new();
        out.push('-');
        let rest = decimal_text((0 - (n as i128)) as u64);
        out.append(rest.as_str());
        assert(out@ =~= signed_decimal(n as int));
        out
    } else {
        decimal_text(n as u64)
    }
}

// ---- Floating-point texts ---------------------------------------------------

/// `s` with its ASCII letters in lower case.
pub open spec fn lowered(s: Seq<char>) -> Seq<char> {
    Seq::new(s.len(), |i: int| ascii_lower(s[i]))
}

/// `s` without a sign at its front.
pub open spec fn without_sign(s: Seq<char>) -> Seq<char> {
    if s.len() > 0 && (s[0] == '+' || s[0] == '-') {
        s.skip(1)
    } else {
        s
    }
}

/// At least one digit, with at most one point among or around the digits.
pub open spec fn is_mantissa(s: Seq<char>) -> bool {
    match cut(s, seq!['.']) {
        Some((whole, fraction)) => digit_run(whole) && digit_run(fraction) && s.len() > 1,
        None => digit_run(s) && s.len() > 0,
    }
}

/// The texts that denote a floating-point number: an optional sign, then a
/// mantissa with an optional exponent, or one of the words `inf`, `infinity` and
/// `nan`; upper and lower case alike.
pub open spec fn is_float_text(s: Seq<char>) -> bool {
    let t = without_sign(lowered(s));
    ||| t == "inf"@
    ||| t == "infinity"@
    ||| t == "nan"@
    ||| match cut(t, seq!['e']) {
        Some((mantissa, exponent)) => {
            &&& is_mantissa(mantissa)
            &&& without_sign(exponent).len() > 0
            &&& digit_run(without_sign(exponent))
        },
        None => is_mantissa(t),
    }
}

/// The characters that a floating-point text in lower case can hold.
pub open spec fn is_float_char(c: char) -> bool {
    is_digit(c) || c == '+' || c == '-' || c == '.' || 'a' <= c <= 'z'
}

proof fn lemma_mantissa_chars(s: Seq<char>)
    requires
        is_mantissa(s),
    ensures
        forall|i: int| 0 <= i < s.len() ==> is_float_char(#[trigger] s[i]),
{
    lemma_index_from(s, seq!['.'], 0);
    match index_of(s, seq!['.']) {
        Some(p) => {
            assert(seq!['.'][0] == '.');
            assert(s[p + 0] == '.');
            assert forall|i: int| 0 <= i < s.len() implies is_float_char(#[trigger] s[i]) by {
                if i < p {
                    assert(s.take(p)[i] == s[i]);
                } else if i > p {
                    assert(s.skip(p + 1)[i - p - 1] == s[i]);
                }
            }
        },
        None => {},
    }
}

proof fn lemma_signed_chars(s: Seq<char>)
    requires
        forall|i: int| 0 <= i < without_sign(s).len() ==> is_float_char(#[trigger] without_sign(s)[i]),
    ensures
        forall|i: int| 0 <= i < s.len() ==> is_float_char(#[trigger] s[i]),
{
    assert forall|i: int| 0 <= i < s.len() implies is_float_char(#[trigger] s[i]) by {
        if s[0] == '+' || s[0] == '-' {
            if i > 0 {
                assert(without_sign(s)[i - 1] == s[i]);
            }
        } else {
            assert(without_sign(s)[i] == s[i]);
        }
    }
}

/// A floating-point text holds letters, digits, signs and points only.
pub proof fn lemma_float_chars(s: Seq<char>)
    requires
        is_float_text(s),
    ensures
        forall|i: int| 0 <= i < s.len() ==> is_float_char(ascii_lower(#[trigger] s[i])),
{
    let l = lowered(s);
    let t = without_sign(l);
    reveal_strlit("inf");
    reveal_strlit("infinity");
    reveal_strlit("nan");
    if t == "inf"@ || t == "infinity"@ || t == "nan"@ {
    } else {
        lemma_index_from(t, seq!['e'], 0);
        match index_of(t, seq!['e']) {
            Some(p) => {
                let m = t.take(p);
                let e = t.skip(p + 1);
                assert(seq!['e'][0] == 'e');
                assert(t[p + 0] == 'e');
                lemma_mantissa_chars(m);
                lemma_signed_chars(e);
                assert forall|i: int| 0 <= i < t.len() implies is_float_char(#[trigger] t[i]) by {
                    if i < p {
                        assert(m[i] == t[i]);
                    } else if i > p {
                        assert(e[i - p - 1] == t[i]);
                    }
                }
            },
            None => {
                lemma_mantissa_chars(t);
            },
        }
    }
    lemma_signed_chars(l);
    assert forall|i: int| 0 <= i < s.len() implies is_float_char(ascii_lower(#[trigger] s[i])) by {
        assert(l[i] == ascii_lower(s[i]));
    }
}

fn only_digits(s: &[char]) -> (r: bool)
    ensures
        r == digit_run(s@),
{
    let mut i: usize = 0;
    while i < s.len()
        invariant
            i <= s@.len(),
            forall|j: int| 0 <= j < i ==> is_digit(#[trigger] s@[j]),
        decreases s@.len() - i,
    {
        let c = s[i];
        if !('0' <= c && c <= '9') {
            assert(!is_digit(s@[i as int]));
            return false;
        }
        i += 1;
    }
    true
}

fn drop_sign<'a>(s: &'a [char]) -> (r: &'a [char])
    ensures
        r@ == without_sign(s@),
{
    if s.len() > 0 && (s[0] == '+' || s[0] == '-') {
        let d = slice_subrange(s, 1, s.len());
        assert(d@ =~= s@.skip(1));
        d
    } else {
        s
    }
}

fn mantissa(s: &[char]) -> (r: bool)
    ensures
        r == is_mantissa(s@),
{
    match split_at_char(s, '.') {
        Some((whole, fraction)) => only_digits(whole) && only_digits(fraction) && s.len() > 1,
        None => only_digits(s) && s.len() > 0,
    }
}

/// Whether `s` denotes a floating-point number.
pub fn denotes_float(s: &[char]) -> (r: bool)
    ensures
        r == is_float_text(s@),
{
    let mut low: Vec<char> = Vec::new();
    let mut i: usize = 0;
    while i < s.len()
        invariant
            i <= s@.len(),
            low@ == lowered(s@).take(i as int),
        decreases s@.len() - i,
    {
        let c = s[i];
        let l = if 'A' <= c && c <= 'Z' {
            ((c as u8) + 32) as char
        } else {
            c
        };
        low.push(l);
        i += 1;
        assert(low@ =~= lowered(s@).take(i as int));
    }
    assert(low@ =~= lowered(s@));
    let t = drop_sign(low.as_slice());
    if is_text(t, "inf") || is_text(t, "infinity") || is_text(t, "nan") {
        return true;
    }
    match split_at_char(t, 'e') {
        Some((m, e)) => {
            let d = drop_sign(e);
            mantissa(m) && d.len() > 0 && only_digits(d)
        },
        None => mantissa(t),
    }
}

// ---- What the texts of numbers are -------------------------------------------

/// Every character is one of the ten digits.
pub open spec fn are_digits(s: Seq<char>) -> bool {
    forall|i: int| 0 <= i < s.len() ==> '0' <= #[trigger] s[i] <= '9'
}

/// No sign, or one of the two.
pub open spec fn sign_text(sign: Option<bool>) -> Seq<char> {
    match sign {
        Some(true) => seq!['-'],
        Some(false) => seq!['+'],
        None => Seq::empty(),
    }
}

/// A digit more at the end is a tenfold and the digit; no digit at all is nothing.
pub proof fn law_run_value(s: Seq<char>, c: char)
    requires
        '0' <= c <= '9',
    ensures
        run_value(Seq::empty()) == 0,
        run_value(s.push(c)) == 10 * run_value(s) + (c as int - 48),
{
    assert(s.push(c).drop_last() =~= s);
    assert(s.push(c).last() == c);
}

/// A number without a sign is read from digits, one at least, behind a plus sign or
/// none, where it is not past the limit; from nothing else.
pub proof fn law_unsigned_read(s: Seq<char>, plus: bool, max: int)
    requires
        are_digits(s),
        s.len() > 0,
    ensures
        unsigned_value(
            if plus {
                seq!['+'] + s
            } else {
                s
            },
            max,
        ) == if run_value(s) <= max {
            Some(run_value(s))
        } else {
            None
        },
{
    assert forall|i: int| 0 <= i < s.len() implies is_digit(#[trigger] s[i]) by {}
    assert('0' <= s[0]);
    assert((seq!['+'] + s).skip(1) =~= s);
}

/// Where a text gives a number without a sign, it holds digits, one at least, behind a
/// plus sign or none.
pub proof fn law_unsigned_only(s: Seq<char>, max: int)
    requires
        unsigned_value(s, max) is Some,
    ensures
        are_digits(s) && s.len() > 0 || (s.len() > 1 && s[0] == '+' && are_digits(s.skip(1))),
        0 <= unsigned_value(s, max)->0 <= max,
{
    let d = without_plus(s);
    assert(digit_run(d));
    assert forall|i: int| 0 <= i < d.len() implies '0' <= #[trigger] d[i] <= '9' by {
        assert(is_digit(d[i]));
    }
    lemma_run_value_nonneg(d);
}

/// A number with a sign is read from digits, one at least, behind a sign or none, where
/// it fits.
pub proof fn law_i32_read(sign: Option<bool>, s: Seq<char>)
    requires
        are_digits(s),
        s.len() > 0,
    ensures
        i32_value(sign_text(sign) + s) == ({
            let n = if sign == Some(true) {
                -run_value(s)
            } else {
                run_value(s)
            };
            if i32::MIN <= n <= i32::MAX {
                Some(n)
            } else {
                None
            }
        }),
{
    assert forall|i: int| 0 <= i < s.len() implies is_digit(#[trigger] s[i]) by {}
    lemma_run_value_nonneg(s);
    assert('0' <= s[0]);
    let all = sign_text(sign) + s;
    match sign {
        Some(true) => {
            assert(all.skip(1) =~= s);
        },
        Some(false) => {
            law_unsigned_read(s, true, i32::MAX as int);
        },
        None => {
            assert(all =~= s);
            law_unsigned_read(s, false, i32::MAX as int);
        },
    }
}

/// Where a text gives a number with a sign, it holds digits, one at least, behind a sign
/// or none.
pub proof fn law_i32_only(s: Seq<char>)
    requires
        i32_value(s) is Some,
    ensures
        are_digits(s) && s.len() > 0 || (s.len() > 1 && (s[0] == '+' || s[0] == '-') && are_digits(
            s.skip(1),
        )),
{
    if s[0] == '-' {
        let d = s.skip(1);
        assert forall|i: int| 0 <= i < d.len() implies '0' <= #[trigger] d[i] <= '9' by {
            assert(is_digit(d[i]));
        }
    } else {
        law_unsigned_only(s, i32::MAX as int);
    }
}

/// A written number holds digits, denotes the number, and has no zero in front.
pub proof fn law_decimal(n: int)
    requires
        0 <= n,
    ensures
        are_digits(decimal(n)),
        decimal(n).len() > 0,
        run_value(decimal(n)) == n,
        n > 0 ==> decimal(n)[0] != '0',
        n == 0 ==> decimal(n) == seq!['0'],
        signed_decimal(n) == decimal(n),
        signed_decimal(-n) == if n > 0 {
            seq!['-'] + decimal(n)
        } else {
            decimal(n)
        },
    decreases n,
{
    lemma_decimal(n);
    assert forall|i: int| 0 <= i < decimal(n).len() implies '0' <= #[trigger] decimal(n)[i]
        <= '9' by {
        assert(is_digit(decimal(n)[i]));
    }
    if n >= 10 {
        law_decimal(n / 10);
        assert(decimal(n)[0] == decimal(n / 10)[0]);
    }
}

/// The parts of the text of a floating-point number: a sign, digits, a point with
/// digits behind it, an exponent with a sign; all but the digits can be missing.
pub struct FloatParts {
    pub sign: Option<bool>,
    pub whole: Seq<char>,
    pub fraction: Option<Seq<char>>,
    pub exponent: Option<(char, Option<bool>, Seq<char>)>,
}

impl FloatParts {
    /// There is a digit before or behind the point, and one in the exponent.
    pub open spec fn valid(self) -> bool {
        &&& are_digits(self.whole)
        &&& match self.fraction {
            Some(f) => are_digits(f) && self.whole.len() + f.len() > 0,
            None => self.whole.len() > 0,
        }
        &&& match self.exponent {
            Some((e, _, digits)) => (e == 'e' || e == 'E') && are_digits(digits) && digits.len()
                > 0,
            None => true,
        }
    }

    /// Digits and the point.
    pub open spec fn mantissa_text(self) -> Seq<char> {
        match self.fraction {
            Some(f) => self.whole + seq!['.'] + f,
            None => self.whole,
        }
    }

    pub open spec fn exponent_text(self) -> Seq<char> {
        match self.exponent {
            Some((e, sign, digits)) => seq![e] + (sign_text(sign) + digits),
            None => Seq::empty(),
        }
    }

    /// The parts, one behind the other.
    pub open spec fn text(self) -> Seq<char> {
        sign_text(self.sign) + (self.mantissa_text() + self.exponent_text())
    }
}

proof fn lemma_lowered_concat(a: Seq<char>, b: Seq<char>)
    ensures
        lowered(a + b) == lowered(a) + lowered(b),
{
    assert(lowered(a + b) =~= lowered(a) + lowered(b));
}

proof fn lemma_lowered_digits(s: Seq<char>)
    requires
        are_digits(s),
    ensures
        lowered(s) == s,
        digit_run(s),
{
    assert(lowered(s) =~= s);
}

proof fn lemma_lowered_sign(sign: Option<bool>)
    ensures
        lowered(sign_text(sign)) == sign_text(sign),
{
    assert(lowered(sign_text(sign)) =~= sign_text(sign));
}

proof fn lemma_without_sign(sign: Option<bool>, s: Seq<char>)
    requires
        s.len() > 0,
        s[0] != '+' && s[0] != '-',
    ensures
        without_sign(sign_text(sign) + s) == s,
{
    let all = sign_text(sign) + s;
    if sign is Some {
        assert(all.skip(1) =~= s);
    } else {
        assert(all =~= s);
    }
}

proof fn lemma_digits_without(s: Seq<char>, c: char)
    requires
        are_digits(s),
        !('0' <= c <= '9'),
    ensures
        !s.contains(c),
{
    if s.contains(c) {
        let k = choose|k: int| 0 <= k < s.len() && s[k] == c;
        assert('0' <= s[k] <= '9');
    }
}

/// A text of a valid form denotes a floating-point number: digits, one at least, with a
/// sign, a point and an exponent or without.
#[verifier::spinoff_prover]
#[verifier::rlimit(40)]
pub proof fn law_float_read(p: FloatParts)
    requires
        p.valid(),
    ensures
        is_float_text(p.text()),
{
    let m = p.mantissa_text();
    let x = p.exponent_text();
    let low = match p.exponent {
        Some((_, sign, digits)) => seq!['e'] + (sign_text(sign) + digits),
        None => Seq::empty(),
    };
    lemma_lowered_digits(p.whole);
    if p.fraction is Some {
        lemma_lowered_digits(p.fraction->0);
        lemma_digits_without(p.fraction->0, 'e');
    }
    assert(lowered(m) == m) by {
        assert(lowered(m) =~= m);
    }
    match p.exponent {
        Some((e, sign, digits)) => {
            lemma_lowered_sign(sign);
            lemma_lowered_digits(digits);
            lemma_lowered_concat(sign_text(sign), digits);
            lemma_lowered_concat(seq![e], sign_text(sign) + digits);
            assert(lowered(seq![e]) =~= seq!['e']);
        },
        None => {
            assert(lowered(x) =~= low);
        },
    }
    lemma_lowered_sign(p.sign);
    lemma_lowered_concat(m, x);
    lemma_lowered_concat(sign_text(p.sign), m + x);
    let t = m + low;
    assert(lowered(p.text()) == sign_text(p.sign) + t);
    lemma_digits_without(p.whole, 'e');
    lemma_digits_without(p.whole, '.');
    assert(m.len() > 0 && m[0] != '+' && m[0] != '-') by {
        if p.whole.len() > 0 {
            assert(m[0] == p.whole[0]);
            assert('0' <= p.whole[0] <= '9');
        } else {
            assert(m[0] == '.');
        }
    }
    assert(t[0] == m[0]);
    lemma_without_sign(p.sign, t);
    assert(!m.contains('e')) by {
        assert forall|i: int| 0 <= i < m.len() implies m[i] != 'e' by {
            if i < p.whole.len() {
                assert(m[i] == p.whole[i]);
            } else if i > p.whole.len() {
                assert(m[i] == (p.fraction->0)[i - p.whole.len() - 1]);
            }
        }
    }
    assert(is_mantissa(m)) by {
        match p.fraction {
            Some(f) => {
                lemma_first_after(p.whole, '.', f);
            },
            None => {
                lemma_absent(m, '.');
            },
        }
    }
    match p.exponent {
        Some((_, sign, digits)) => {
            let rest = sign_text(sign) + digits;
            assert(t =~= m + seq!['e'] + rest);
            lemma_first_after(m, 'e', rest);
            assert('0' <= digits[0] <= '9');
            lemma_without_sign(sign, digits);
        },
        None => {
            assert(t =~= m);
            lemma_absent(m, 'e');
        },
    }
}

/// The words for what is no finite number do too, in any case and behind a sign or none.
pub proof fn law_float_words(sign: Option<bool>, word: Seq<char>)
    requires
        same_ignoring_case(word, "inf"@) || same_ignoring_case(word, "infinity"@)
            || same_ignoring_case(word, "nan"@),
    ensures
        is_float_text(sign_text(sign) + word),
{
    reveal_strlit("inf");
    reveal_strlit("infinity");
    reveal_strlit("nan");
    let low = lowered(word);
    assert(low =~= "inf"@ || low =~= "infinity"@ || low =~= "nan"@) by {
        if same_ignoring_case(word, "inf"@) {
            assert(low =~= "inf"@) by {
                assert forall|i: int| 0 <= i < low.len() implies low[i] == "inf"@[i] by {
                    assert(ascii_lower(word[i]) == ascii_lower("inf"@[i]));
                }
            }
        } else if same_ignoring_case(word, "infinity"@) {
            assert(low =~= "infinity"@) by {
                assert forall|i: int| 0 <= i < low.len() implies low[i] == "infinity"@[i] by {
                    assert(ascii_lower(word[i]) == ascii_lower("infinity"@[i]));
                }
            }
        } else {
            assert(low =~= "nan"@) by {
                assert forall|i: int| 0 <= i < low.len() implies low[i] == "nan"@[i] by {
                    assert(ascii_lower(word[i]) == ascii_lower("nan"@[i]));
                }
            }
        }
    }
    lemma_lowered_sign(sign);
    lemma_lowered_concat(sign_text(sign), word);
    lemma_without_sign(sign, low);
}

/// The decimal text of every integer denotes a floating-point number.
pub proof fn law_integers_are_floats(n: int)
    ensures
        is_float_text(signed_decimal(n)),
{
    let sign = if n < 0 {
        Some(true)
    } else {
        None
    };
    let d = if n < 0 {
        decimal(-n)
    } else {
        decimal(n)
    };
    law_decimal(
        if n < 0 {
            -n
        } else {
            n
        },
    );
    let p = FloatParts { sign, whole: d, fraction: None, exponent: None };
    law_float_read(p);
    assert(p.text() =~= signed_decimal(n));
}

/// One of the words for what is no finite number, in any case, behind a sign or none.
pub open spec fn is_float_word(s: Seq<char>) -> bool {
    exists|sign: Option<bool>, word: Seq<char>|
        #![trigger sign_text(sign) + word]
        s == sign_text(sign) + word && (same_ignoring_case(word, "inf"@) || same_ignoring_case(
            word,
            "infinity"@,
        ) || same_ignoring_case(word, "nan"@))
}

proof fn lemma_back_from_lower(c: char)
    ensures
        '0' <= ascii_lower(c) <= '9' ==> ascii_lower(c) == c,
        ascii_lower(c) == '.' ==> c == '.',
        ascii_lower(c) == '+' ==> c == '+',
        ascii_lower(c) == '-' ==> c == '-',
        ascii_lower(c) == 'e' ==> c == 'e' || c == 'E',
        ascii_lower(ascii_lower(c)) == ascii_lower(c),
{
}

/// A text whose lower-case form is digits is digits.
proof fn lemma_digits_from_lower(s: Seq<char>)
    requires
        digit_run(lowered(s)),
    ensures
        are_digits(s),
{
    assert forall|i: int| 0 <= i < s.len() implies '0' <= #[trigger] s[i] <= '9' by {
        assert(is_digit(lowered(s)[i]));
        lemma_back_from_lower(s[i]);
    }
}

/// The sign that a text begins with.
spec fn sign_of(s: Seq<char>) -> Option<bool> {
    if s.len() > 0 && s[0] == '-' {
        Some(true)
    } else if s.len() > 0 && s[0] == '+' {
        Some(false)
    } else {
        None
    }
}

proof fn lemma_sign_of(s: Seq<char>)
    ensures
        s == sign_text(sign_of(s)) + without_sign(s),
        lowered(without_sign(s)) == without_sign(lowered(s)),
{
    assert(s =~= sign_text(sign_of(s)) + without_sign(s));
    if s.len() > 0 {
        lemma_back_from_lower(s[0]);
        assert(lowered(s)[0] == ascii_lower(s[0]));
    }
    assert(lowered(without_sign(s)) =~= without_sign(lowered(s)));
}

/// Digits and a point, out of a text whose lower-case form is a mantissa.
proof fn lemma_mantissa_from_lower(s: Seq<char>) -> (r: (Seq<char>, Option<Seq<char>>))
    requires
        is_mantissa(lowered(s)),
    ensures
        are_digits(r.0),
        match r.1 {
            Some(f) => are_digits(f) && r.0.len() + f.len() > 0 && s == r.0 + seq!['.'] + f,
            None => r.0.len() > 0 && s == r.0,
        },
{
    let low = lowered(s);
    lemma_index_from(low, seq!['.'], 0);
    match index_of(low, seq!['.']) {
        Some(k) => {
            assert(seq!['.'][0] == '.');
            assert(low[k + 0] == '.');
            lemma_back_from_lower(s[k]);
            let whole = s.take(k);
            let fraction = s.skip(k + 1);
            assert(lowered(whole) =~= low.take(k));
            assert(lowered(fraction) =~= low.skip(k + 1));
            lemma_digits_from_lower(whole);
            lemma_digits_from_lower(fraction);
            assert(s =~= whole + seq!['.'] + fraction);
            (whole, Some(fraction))
        },
        None => {
            lemma_digits_from_lower(s);
            (s, None)
        },
    }
}

/// Nothing else denotes a floating-point number.
pub proof fn law_float_only(s: Seq<char>)
    requires
        is_float_text(s),
    ensures
        is_float_word(s) || exists|p: FloatParts| #[trigger] p.valid() && p.text() == s,
{
    let t = without_sign(lowered(s));
    let body = without_sign(s);
    lemma_sign_of(s);
    let sign = sign_of(s);
    if t == "inf"@ || t == "infinity"@ || t == "nan"@ {
        assert forall|i: int| 0 <= i < body.len() implies ascii_lower(#[trigger] body[i])
            == ascii_lower(t[i]) by {
            assert(t[i] == ascii_lower(body[i]));
            lemma_back_from_lower(body[i]);
        }
        assert(s == sign_text(sign) + body);
        assert(is_float_word(s));
    } else {
        lemma_index_from(t, seq!['e'], 0);
        match index_of(t, seq!['e']) {
            Some(k) => {
                assert(seq!['e'][0] == 'e');
                assert(t[k + 0] == 'e');
                let m = body.take(k);
                let x = body.skip(k + 1);
                lemma_back_from_lower(body[k]);
                assert(lowered(m) =~= t.take(k));
                assert(lowered(x) =~= t.skip(k + 1));
                let (whole, fraction) = lemma_mantissa_from_lower(m);
                lemma_sign_of(x);
                let digits = without_sign(x);
                lemma_digits_from_lower(digits);
                let p = FloatParts {
                    sign,
                    whole,
                    fraction,
                    exponent: Some((body[k], sign_of(x), digits)),
                };
                assert(body =~= m + (seq![body[k]] + x));
                assert(p.mantissa_text() == m);
                assert(p.exponent_text() == seq![body[k]] + x);
                assert(p.valid());
                assert(p.text() == s);
            },
            None => {
                let (whole, fraction) = lemma_mantissa_from_lower(body);
                let p = FloatParts { sign, whole, fraction, exponent: None };
                assert(p.mantissa_text() == body);
                assert(body + Seq::<char>::empty() =~= body);
                assert(p.valid());
                assert(p.text() == s);
            },
        }
    }
}

/// Every such word denotes a floating-point number.
pub proof fn law_words_are_floats(s: Seq<char>)
    requires
        is_float_word(s),
    ensures
        is_float_text(s),
{
    let (sign, word) = choose|sign: Option<bool>, word: Seq<char>|
        #![trigger sign_text(sign) + word]
        s == sign_text(sign) + word && (same_ignoring_case(word, "inf"@) || same_ignoring_case(
            word,
            "infinity"@,
        ) || same_ignoring_case(word, "nan"@));
    law_float_words(sign, word);
}

} // verus!

//! Decimal numerals: reading and writing unsigned integers and fixed-point
//! numbers.
//!
//! A fixed-point number with `scale` fractional digits is held as a sign and
//! the count of its smallest unit: with a scale of three, `20.154` is the
//! magnitude `20154`. The count is read from the digits of the text with the
//! point left out, so that no rounding ever takes place, and the sign is kept
//! as it is written, before a zero too: `-0.000` and `0.000` are two numbers.
//!
//! The numerals that are read are the plain decimal ones whose number can be
//! kept exactly: an optional sign, digits, and optionally a point and more
//! digits, with at least one digit in all, and with zeros only beyond as
//! many digits behind the point as the scale has. A numeral with an
//! exponent, with a digit that would be lost, or one of `inf` and `NaN` is
//! not read.

use crate::text::{pad_left, push_right, put};
use vstd::prelude::*;
use vstd::string::*;
use vstd::utf8::*;

verus! {

/// A fixed-point number: its sign and its magnitude, counted in units of the
/// last fractional digit. A zero has a sign like any other number.
#[derive(Debug, Copy, Clone, PartialEq, Eq, Structural)]
pub struct Fixed {
    /// Whether the number is written with a minus sign.
    pub negative: bool,
    /// The count of units.
    pub magnitude: u64,
}

/// The number of a sign without it: a negative count, no negative zero.
pub open spec fn signed(v: int) -> Fixed {
    Fixed {
        negative: v < 0,
        magnitude: (if v < 0 {
            -v
        } else {
            v
        }) as u64,
    }
}

impl Fixed {
    /// The number as an integer count of units; both zeros count as zero.
    pub open spec fn value(self) -> int {
        if self.negative {
            -(self.magnitude as int)
        } else {
            self.magnitude as int
        }
    }

    /// The number of a count of units. A count of zero gives the zero
    /// without a minus sign.
    pub fn from_units(v: i64) -> (r: Fixed)
        ensures
            r == signed(v as int),
    {
        if v >= 0 {
            Fixed { negative: false, magnitude: v as u64 }
        } else {
            Fixed { negative: true, magnitude: (-(v + 1)) as u64 + 1 }
        }
    }

    /// The number as an integer count of units.
    pub fn units(&self) -> (r: i128)
        ensures
            r == self.value(),
    {
        if self.negative {
            -(self.magnitude as i128)
        } else {
            self.magnitude as i128
        }
    }
}

/// Whether `a` less `by` is a number of this type: whether its magnitude is
/// one of 64 bits.
pub open spec fn can_subtract(a: Fixed, by: Fixed) -> bool {
    -(u64::MAX as int) <= a.value() - by.value() <= u64::MAX as int
}

/// `a` less `by`. A difference of zero has a minus sign only where a zero
/// with a minus sign is lessened by a zero without one: to take a zero
/// without a minus sign from a number leaves the number as it is.
pub open spec fn difference(a: Fixed, by: Fixed) -> Fixed {
    let d = a.value() - by.value();
    Fixed {
        negative: d < 0 || (a.magnitude == 0 && a.negative && by.magnitude == 0 && !by.negative),
        magnitude: (if d < 0 {
            -d
        } else {
            d
        }) as u64,
    }
}

/// To take a zero without a minus sign from a number leaves the number as it is.
pub proof fn lemma_difference_of_zero(a: Fixed)
    ensures
        can_subtract(a, signed(0)),
        difference(a, signed(0)) == a,
{
}

/// `a` less `by`, where that is a number of this type.
pub fn checked_difference(a: Fixed, by: Fixed) -> (r: Option<Fixed>)
    ensures
        r is Some <==> can_subtract(a, by),
        r is Some ==> r->0 == difference(a, by),
{
    let d: i128 = a.units() - by.units();
    if d < -0xffff_ffff_ffff_ffff || d > 0xffff_ffff_ffff_ffff {
        None
    } else if d < 0 {
        Some(Fixed { negative: true, magnitude: (-d) as u64 })
    } else {
        let minus = d == 0 && a.magnitude == 0 && a.negative && by.magnitude == 0 && !by.negative;
        Some(Fixed { negative: minus, magnitude: d as u64 })
    }
}

/// Whether `c` is one of the ten decimal digits.
pub open spec fn is_digit(c: char) -> bool {
    '0' <= c && c <= '9'
}

/// The number that the digit `c` stands for; zero for any other character.
pub open spec fn digit_value(c: char) -> nat {
    if is_digit(c) {
        (c as int - 48) as nat
    } else {
        0
    }
}

/// The digit that stands for `d`, for `d` below ten.
pub open spec fn digit_char(d: int) -> char {
    (d + 48) as char
}

/// Whether `s` holds decimal digits only.
pub open spec fn all_digits(s: Seq<char>) -> bool {
    forall|i: int| 0 <= i < s.len() ==> is_digit(#[trigger] s[i])
}

/// The number that the digits of `s` write in base ten; zero for no digits.
pub open spec fn digits_value(s: Seq<char>) -> nat
    decreases s.len(),
{
    if s.len() == 0 {
        0
    } else {
        digits_value(s.drop_last()) * 10 + digit_value(s.last())
    }
}

/// The digits of `n` in base ten, without leading zeros.
pub open spec fn decimal(n: nat) -> Seq<char>
    decreases n,
{
    if n < 10 {
        seq![digit_char(n as int)]
    } else {
        decimal(n / 10).push(digit_char((n % 10) as int))
    }
}

/// A run of `n` zero digits.
pub open spec fn zeros(n: int) -> Seq<char> {
    Seq::new(
        if n > 0 {
            n as nat
        } else {
            0
        },
        |i: int| '0',
    )
}

/// What the text of an unsigned 32-bit integer stands for: an optional `+`,
/// then at least one digit, the whole not above `u32::MAX`.
pub open spec fn parse_u32_text(t: Seq<char>) -> Option<u32> {
    let body = if t.len() > 0 && t[0] == '+' {
        t.drop_first()
    } else {
        t
    };
    if body.len() > 0 && all_digits(body) && digits_value(body) <= u32::MAX {
        Some(digits_value(body) as u32)
    } else {
        None
    }
}

/// Whether `t` begins with a sign.
pub open spec fn has_sign(t: Seq<char>) -> bool {
    t.len() > 0 && (t[0] == '+' || t[0] == '-')
}

/// The index of the first point in `t`, or the length of `t` where it has none.
pub open spec fn point_index(t: Seq<char>) -> int
    decreases t.len(),
{
    if t.len() == 0 || t[0] == '.' {
        0
    } else {
        1 + point_index(t.drop_first())
    }
}

/// The digits before the point of an unsigned numeral.
pub open spec fn whole_digits(body: Seq<char>) -> Seq<char> {
    body.subrange(0, point_index(body))
}

/// The digits after the point of an unsigned numeral; none where it has no point.
pub open spec fn fraction_digits(body: Seq<char>) -> Seq<char> {
    if point_index(body) < body.len() {
        body.subrange(point_index(body) + 1, body.len() as int)
    } else {
        Seq::empty()
    }
}

/// Whether `s` holds zero digits only.
pub open spec fn all_zeros(s: Seq<char>) -> bool {
    forall|i: int| 0 <= i < s.len() ==> #[trigger] s[i] == '0'
}

/// The digits behind the point that count: the first `scale` of them.
pub open spec fn counted(fraction: Seq<char>, scale: nat) -> Seq<char> {
    if fraction.len() > scale {
        fraction.subrange(0, scale as int)
    } else {
        fraction
    }
}

/// The digits behind the point beyond the first `scale`.
pub open spec fn surplus(fraction: Seq<char>, scale: nat) -> Seq<char> {
    if fraction.len() > scale {
        fraction.subrange(scale as int, fraction.len() as int)
    } else {
        Seq::empty()
    }
}

/// The fixed-point number written by the digits `whole` before the point and
/// at most `scale` digits `kept` after it, in units of the last of `scale`
/// fractional digits. There is none where a part holds anything but digits
/// or where the magnitude is above `u64::MAX`. The sign is kept whatever the
/// magnitude.
pub open spec fn exact_value(negative: bool, whole: Seq<char>, kept: Seq<char>, scale: nat)
    -> Option<Fixed> {
    let digits = whole + kept + zeros(scale - kept.len());
    if all_digits(whole) && all_digits(kept) && kept.len() <= scale && digits_value(digits)
        <= u64::MAX {
        Some(Fixed { negative, magnitude: digits_value(digits) as u64 })
    } else {
        None
    }
}

/// The fixed-point number written by the digits `whole` before the point and
/// `fraction` after it, where `scale` fractional digits can be kept: the
/// number of `whole` and the first `scale` digits of `fraction`. There is
/// none where both parts are empty, or where a digit of `fraction` beyond the
/// first `scale` is another than zero, so that the number could not be kept
/// exactly.
pub open spec fn fixed_value(negative: bool, whole: Seq<char>, fraction: Seq<char>, scale: nat)
    -> Option<Fixed> {
    if whole.len() + fraction.len() > 0 && all_zeros(surplus(fraction, scale)) {
        exact_value(negative, whole, counted(fraction, scale), scale)
    } else {
        None
    }
}

/// What the text of a fixed-point number with `scale` fractional digits stands
/// for, in units of the last digit: an optional sign, digits, and optionally a
/// point and more digits, of which those beyond the first `scale` are zeros.
/// A numeral with an exponent, with another digit than zero beyond the first
/// `scale` behind the point, or without any digit stands for nothing.
pub open spec fn parse_fixed_text(t: Seq<char>, scale: nat) -> Option<Fixed> {
    let body = if has_sign(t) {
        t.drop_first()
    } else {
        t
    };
    fixed_value(
        t.len() > 0 && t[0] == '-',
        whole_digits(body),
        fraction_digits(body),
        scale,
    )
}

/// `s` with zero digits put before it until it has `width` digits.
pub open spec fn zero_fill(s: Seq<char>, width: int) -> Seq<char> {
    zeros(width - s.len()) + s
}

/// The text of the fixed-point number `v`, counted in units of the last of
/// `scale` fractional digits: a minus sign where the number has one, the
/// digits of the whole part, a point, and exactly `scale` digits of the
/// fraction.
pub open spec fn fixed_text(v: Fixed, scale: nat) -> Seq<char> {
    let digits = zero_fill(decimal(v.magnitude as nat), scale as int + 1);
    let sign = if v.negative {
        seq!['-']
    } else {
        Seq::empty()
    };
    sign + digits.subrange(0, digits.len() - scale) + seq!['.'] + digits.subrange(
        digits.len() - scale,
        digits.len() as int,
    )
}

proof fn lemma_digits_value_push(s: Seq<char>, c: char)
    ensures
        digits_value(s.push(c)) == digits_value(s) * 10 + digit_value(c),
{
    assert(s.push(c).drop_last() =~= s);
}

proof fn lemma_digits_value_grows(s: Seq<char>, k: int)
    requires
        all_digits(s),
        0 <= k <= s.len(),
    ensures
        digits_value(s.subrange(0, k)) <= digits_value(s),
    decreases s.len() - k,
{
    if k == s.len() {
        assert(s.subrange(0, k) =~= s);
    } else {
        let shorter = s.drop_last();
        assert(is_digit(s.last()));
        assert forall|i: int| 0 <= i < shorter.len() implies is_digit(#[trigger] shorter[i]) by {
            assert(shorter[i] == s[i]);
        }
        lemma_digits_value_grows(shorter, k);
        assert(shorter.subrange(0, k) =~= s.subrange(0, k));
    }
}

/// Reads a run of digits, given as ASCII bytes, on top of the number `start`
/// read before it. `None` where a byte is no digit or the number passes `limit`.
fn read_digits(bytes: &[u8], from: usize, to: usize, start: u64, limit: u64, Ghost(s): Ghost<
    Seq<char>,
>, Ghost(before): Ghost<Seq<char>>) -> (r: Option<u64>)
    requires
        from <= to <= bytes@.len(),
        s.len() == bytes@.len(),
        forall|i: int| 0 <= i < s.len() ==> #[trigger] s[i] == bytes@[i] as char,
        start == digits_value(before),
        all_digits(before),
        start <= limit <= 0xffff_ffff_ffff_ffff,
    ensures
        r matches Some(v) ==> all_digits(s.subrange(from as int, to as int)) && v == digits_value(
            before + s.subrange(from as int, to as int),
        ) && v <= limit,
        r is None ==> !all_digits(s.subrange(from as int, to as int)) || digits_value(
            before + s.subrange(from as int, to as int),
        ) > limit,
{
    let mut acc: u64 = start;
    let mut i: usize = from;
    proof {
        assert(before + s.subrange(from as int, from as int) =~= before);
    }
    while i < to
        invariant
            from <= i <= to <= bytes@.len(),
            s.len() == bytes@.len(),
            forall|j: int| 0 <= j < s.len() ==> #[trigger] s[j] == bytes@[j] as char,
            all_digits(before),
            all_digits(s.subrange(from as int, i as int)),
            acc == digits_value(before + s.subrange(from as int, i as int)),
            acc <= limit <= 0xffff_ffff_ffff_ffff,
        decreases to - i,
    {
        let b = bytes[i];
        let ghost seen = before + s.subrange(from as int, i as int);
        let ghost field = s.subrange(from as int, to as int);
        if b < 48 || b > 57 {
            proof {
                assert(field[i - from] == s[i as int]);
                assert(!is_digit(s[i as int]));
            }
            return None;
        }
        proof {
            assert(is_digit(s[i as int]));
            assert(s.subrange(from as int, i + 1) =~= s.subrange(from as int, i as int).push(
                s[i as int],
            ));
            assert(before + s.subrange(from as int, i + 1) =~= seen.push(s[i as int]));
            lemma_digits_value_push(seen, s[i as int]);
            assert(all_digits(s.subrange(from as int, i + 1)));
        }
        let d: u64 = (b - 48) as u64;
        if acc as u128 * 10 + d as u128 > limit as u128 {
            proof {
                let whole = before + field;
                if all_digits(field) {
                    assert(all_digits(whole));
                    lemma_digits_value_grows(whole, before.len() + (i + 1 - from));
                    assert(whole.subrange(0, before.len() + (i + 1 - from)) =~= seen.push(
                        s[i as int],
                    ));
                }
            }
            return None;
        }
        acc = acc * 10 + d;
        i += 1;
    }
    Some(acc)
}

proof fn lemma_ascii_bytes(text: &str)
    requires
        is_ascii(text),
    ensures
        text.spec_bytes().len() == text@.len(),
        forall|i: int| 0 <= i < text@.len() ==> #[trigger] text@[i] == text.spec_bytes()[i] as char,
{
    is_ascii_spec_bytes(text);
    assert forall|i: int| 0 <= i < text@.len() implies #[trigger] text@[i] == text.spec_bytes()[i]
        as char by {
        assert(text@[i] <= '\u{7f}');
        assert(text.spec_bytes()[i] == text@[i] as u8);
    }
}

proof fn lemma_point_index(body: Seq<char>, k: int)
    requires
        0 <= k <= body.len(),
        forall|j: int| 0 <= j < k ==> #[trigger] body[j] != '.',
        k < body.len() ==> body[k] == '.',
    ensures
        point_index(body) == k,
    decreases k,
{
    if k > 0 {
        let rest = body.drop_first();
        assert(body[0] != '.');
        assert forall|j: int| 0 <= j < k - 1 implies #[trigger] rest[j] != '.' by {
            assert(rest[j] == body[j + 1]);
        }
        lemma_point_index(rest, k - 1);
    }
}

proof fn lemma_point_index_bounds(body: Seq<char>)
    ensures
        0 <= point_index(body) <= body.len(),
        point_index(body) < body.len() ==> body[point_index(body)] == '.',
    decreases body.len(),
{
    if body.len() > 0 && body[0] != '.' {
        lemma_point_index_bounds(body.drop_first());
    }
}

/// A numeral with a character outside ASCII stands for nothing.
proof fn lemma_not_ascii_not_numeral(t: Seq<char>, scale: nat)
    requires
        !is_ascii_chars(t),
    ensures
        parse_u32_text(t) is None,
        parse_fixed_text(t, scale) is None,
{
    let i = choose|i: int| 0 <= i < t.len() && !('\0' <= #[trigger] t[i] <= '\u{7f}');
    assert(!is_digit(t[i]) && t[i] != '+' && t[i] != '-' && t[i] != '.');
    let plain = if t.len() > 0 && t[0] == '+' {
        t.drop_first()
    } else {
        t
    };
    assert(!all_digits(plain)) by {
        if t[0] == '+' {
            assert(plain[i - 1] == t[i]);
        }
    }
    let body = if has_sign(t) {
        t.drop_first()
    } else {
        t
    };
    let j = if has_sign(t) {
        i - 1
    } else {
        i
    };
    assert(body[j] == t[i]);
    lemma_point_index_bounds(body);
    let p = point_index(body);
    if j < p {
        assert(whole_digits(body)[j] == body[j]);
    } else {
        assert(j > p);
        let fraction = fraction_digits(body);
        let f = j - p - 1;
        assert(fraction[f] == body[j]);
        if f < counted(fraction, scale).len() {
            assert(counted(fraction, scale)[f] == fraction[f]);
        } else {
            assert(surplus(fraction, scale)[f - scale] == fraction[f]);
        }
    }
}

/// Reads the text of an unsigned 32-bit integer.
pub fn parse_u32(text: &str) -> (r: Option<u32>)
    ensures
        r == parse_u32_text(text@),
{
    if !text.is_ascii() {
        proof {
            lemma_not_ascii_not_numeral(text@, 0);
        }
        return None;
    }
    let bytes = text.as_bytes();
    let n = bytes.len();
    proof {
        lemma_ascii_bytes(text);
    }
    let from: usize = if n > 0 && bytes[0] == 43 {
        1
    } else {
        0
    };
    let ghost body = text@.subrange(from as int, n as int);
    proof {
        if from == 1 {
            assert(text@.drop_first() =~= body);
        } else {
            assert(text@ =~= body);
        }
        assert(Seq::<char>::empty() + body =~= body);
    }
    if from == n {
        return None;
    }
    match read_digits(bytes, from, n, 0, 0xffff_ffff, Ghost(text@), Ghost(Seq::empty())) {
        Some(v) => Some(v as u32),
        None => None,
    }
}

/// Puts `missing` zero digits behind the number `start`. `None` where the
/// number passes `limit`.
fn append_zeros(start: u64, missing: usize, limit: u64, Ghost(before): Ghost<Seq<char>>) -> (r:
    Option<u64>)
    requires
        start == digits_value(before),
        all_digits(before),
        start <= limit <= 0xffff_ffff_ffff_ffff,
    ensures
        r matches Some(v) ==> v == digits_value(before + zeros(missing as int)) && v <= limit,
        r is None ==> digits_value(before + zeros(missing as int)) > limit,
{
    let mut acc: u64 = start;
    let mut filled: usize = 0;
    let ghost digits = before + zeros(missing as int);
    proof {
        assert(before + zeros(0) =~= before);
        assert(all_digits(digits));
    }
    while filled < missing
        invariant
            filled <= missing,
            all_digits(digits),
            digits == before + zeros(missing as int),
            acc == digits_value(before + zeros(filled as int)),
            acc <= limit <= 0xffff_ffff_ffff_ffff,
        decreases missing - filled,
    {
        let ghost seen = before + zeros(filled as int);
        proof {
            assert(before + zeros(filled + 1) =~= seen.push('0'));
            lemma_digits_value_push(seen, '0');
        }
        if acc as u128 * 10 > limit as u128 {
            proof {
                lemma_digits_value_grows(digits, seen.len() as int + 1);
                assert(digits.subrange(0, seen.len() as int + 1) =~= seen.push('0'));
            }
            return None;
        }
        acc = acc * 10;
        filled += 1;
    }
    Some(acc)
}

/// Reads the digits of a fixed-point number: those of the whole part in the
/// bytes `[from, point)`, those of the fraction that count in `[rest, to)`.
fn read_exact(
    bytes: &[u8],
    from: usize,
    point: usize,
    rest: usize,
    to: usize,
    negative: bool,
    scale: usize,
    Ghost(s): Ghost<Seq<char>>,
) -> (r: Option<Fixed>)
    requires
        from <= point <= rest <= to <= bytes@.len(),
        s.len() == bytes@.len(),
        forall|i: int| 0 <= i < s.len() ==> #[trigger] s[i] == bytes@[i] as char,
    ensures
        r == exact_value(
            negative,
            s.subrange(from as int, point as int),
            s.subrange(rest as int, to as int),
            scale as nat,
        ),
{
    let ghost whole = s.subrange(from as int, point as int);
    let ghost kept = s.subrange(rest as int, to as int);
    if to - rest > scale {
        return None;
    }
    let limit: u64 = 0xffff_ffff_ffff_ffff;
    let ghost padding = zeros(scale - kept.len());
    let ghost digits = whole + kept + padding;
    proof {
        assert(all_digits(padding));
        assert(Seq::<char>::empty() + whole =~= whole);
        if all_digits(whole) && all_digits(kept) {
            assert(all_digits(whole + kept));
            assert(all_digits(digits));
            lemma_digits_value_grows(digits, whole.len() as int);
            assert(digits.subrange(0, whole.len() as int) =~= whole);
            lemma_digits_value_grows(digits, (whole + kept).len() as int);
            assert(digits.subrange(0, (whole + kept).len() as int) =~= whole + kept);
        }
    }
    let first = match read_digits(bytes, from, point, 0, limit, Ghost(s), Ghost(Seq::empty())) {
        Some(v) => v,
        None => {
            return None;
        },
    };
    let second = match read_digits(bytes, rest, to, first, limit, Ghost(s), Ghost(whole)) {
        Some(v) => v,
        None => {
            return None;
        },
    };
    match append_zeros(second, scale - (to - rest), limit, Ghost(whole + kept)) {
        Some(v) => Some(Fixed { negative, magnitude: v }),
        None => None,
    }
}

/// Reads the digits of a fixed-point number: those of the whole part in the
/// bytes `[from, point)`, those of the fraction in the bytes from `rest` on.
fn read_fixed(
    bytes: &[u8],
    from: usize,
    point: usize,
    rest: usize,
    negative: bool,
    scale: usize,
    Ghost(s): Ghost<Seq<char>>,
) -> (r: Option<Fixed>)
    requires
        from <= point <= rest <= bytes@.len(),
        s.len() == bytes@.len(),
        forall|i: int| 0 <= i < s.len() ==> #[trigger] s[i] == bytes@[i] as char,
    ensures
        r == fixed_value(
            negative,
            s.subrange(from as int, point as int),
            s.subrange(rest as int, s.len() as int),
            scale as nat,
        ),
{
    let n = bytes.len();
    let ghost fraction = s.subrange(rest as int, n as int);
    if (point - from) + (n - rest) == 0 {
        return None;
    }
    let to: usize = if n - rest > scale {
        rest + scale
    } else {
        n
    };
    proof {
        assert(counted(fraction, scale as nat) =~= s.subrange(rest as int, to as int));
        assert(surplus(fraction, scale as nat) =~= s.subrange(to as int, n as int));
    }
    let mut i: usize = to;
    while i < n
        invariant
            from <= point <= rest <= to <= i <= n == bytes@.len() == s.len(),
            (point - from) + (n - rest) > 0,
            fraction == s.subrange(rest as int, n as int),
            forall|j: int| 0 <= j < s.len() ==> #[trigger] s[j] == bytes@[j] as char,
            forall|j: int| to <= j < i ==> #[trigger] s[j] == '0',
            surplus(fraction, scale as nat) == s.subrange(to as int, n as int),
        decreases n - i,
    {
        if bytes[i] != 48 {
            proof {
                assert(s.subrange(to as int, n as int)[i - to] == s[i as int]);
                assert(s[i as int] != '0');
                assert(!all_zeros(surplus(fraction, scale as nat)));
            }
            return None;
        }
        i += 1;
    }
    proof {
        assert forall|j: int| 0 <= j < surplus(fraction, scale as nat).len() implies #[trigger] surplus(
            fraction,
            scale as nat,
        )[j] == '0' by {
            assert(s.subrange(to as int, n as int)[j] == s[to + j]);
        }
    }
    read_exact(bytes, from, point, rest, to, negative, scale, Ghost(s))
}

/// Reads the text of a fixed-point number with `scale` fractional digits.
pub fn parse_fixed(text: &str, scale: u8) -> (r: Option<Fixed>)
    ensures
        r == parse_fixed_text(text@, scale as nat),
{
    if !text.is_ascii() {
        proof {
            lemma_not_ascii_not_numeral(text@, scale as nat);
        }
        return None;
    }
    let bytes = text.as_bytes();
    let n = bytes.len();
    proof {
        lemma_ascii_bytes(text);
    }
    let negative = n > 0 && bytes[0] == 45;
    let from: usize = if n > 0 && (bytes[0] == 43 || bytes[0] == 45) {
        1
    } else {
        0
    };
    let ghost body = text@.subrange(from as int, n as int);
    proof {
        if from == 1 {
            assert(text@.drop_first() =~= body);
        } else {
            assert(text@ =~= body);
        }
    }
    let mut point: usize = from;
    while point < n && bytes[point] != 46
        invariant
            from <= point <= n == bytes@.len(),
            n == text@.len(),
            forall|i: int| 0 <= i < text@.len() ==> #[trigger] text@[i] == bytes@[i] as char,
            forall|j: int| from <= j < point ==> #[trigger] text@[j] != '.',
        decreases n - point,
    {
        point += 1;
    }
    let rest: usize = if point < n {
        point + 1
    } else {
        n
    };
    proof {
        assert forall|j: int| 0 <= j < point - from implies #[trigger] body[j] != '.' by {
            assert(body[j] == text@[j + from]);
        }
        lemma_point_index(body, point - from);
        assert(whole_digits(body) =~= text@.subrange(from as int, point as int));
        assert(fraction_digits(body) =~= text@.subrange(rest as int, n as int));
    }
    read_fixed(bytes, from, point, rest, negative, scale as usize, Ghost(text@))
}

/// The digits of `n` in base ten.
pub fn decimal_digits(n: u64) -> (r: Vec<char>)
    ensures
        r@ == decimal(n as nat),
    decreases n,
{
    if n < 10 {
        let mut r: Vec<char> = Vec::new();
        r.push(((n as u8) + 48) as char);
        proof {
            assert(r@ =~= seq![digit_char(n as int)]);
        }
        r
    } else {
        let mut r = decimal_digits(n / 10);
        r.push((((n % 10) as u8) + 48) as char);
        r
    }
}

/// Appends `n` in base ten, right-justified in a field of at least `width` characters.
pub(crate) fn push_number(out: &mut String, n: u64, width: usize)
    ensures
        final(out)@ == old(out)@ + pad_left(decimal(n as nat), width as int),
{
    let digits = decimal_digits(n);
    let mut text = String::new();
    let mut i: usize = 0;
    while i < digits.len()
        invariant
            i <= digits@.len(),
            text@ == digits@.subrange(0, i as int),
        decreases digits.len() - i,
    {
        put(&mut text, digits[i]);
        i += 1;
        proof {
            assert(text@ =~= digits@.subrange(0, i as int));
        }
    }
    proof {
        assert(digits@.subrange(0, digits@.len() as int) =~= digits@);
    }
    push_right(out, text.as_str(), width);
}

/// The text of the fixed-point number `v` with `scale` fractional digits.
pub fn fixed_string(v: Fixed, scale: u8) -> (r: String)
    ensures
        r@ == fixed_text(v, scale as nat),
{
    let digits = decimal_digits(v.magnitude);
    let least: usize = scale as usize + 1;
    let fill: usize = if digits.len() < least {
        least - digits.len()
    } else {
        0
    };
    let total: usize = fill + digits.len();
    let ghost filled = zero_fill(digits@, least as int);
    let mut text = String::new();
    if v.negative {
        put(&mut text, '-');
    }
    let ghost sign = text@;
    let mut i: usize = 0;
    proof {
        assert(filled.len() == total);
        assert(text@ =~= sign + filled.subrange(0, 0));
    }
    while i < total - scale as usize
        invariant
            i <= total - scale as usize,
            total == fill + digits@.len() == filled.len(),
            total > scale,
            filled == zero_fill(digits@, least as int),
            fill == (if digits@.len() < least {
                least - digits@.len()
            } else {
                0
            }),
            text@ == sign + filled.subrange(0, i as int),
        decreases total - i,
    {
        let c = if i < fill {
            '0'
        } else {
            digits[i - fill]
        };
        proof {
            assert(filled[i as int] == c);
            assert(filled.subrange(0, i + 1) =~= filled.subrange(0, i as int).push(c));
        }
        put(&mut text, c);
        i += 1;
        proof {
            assert(text@ =~= sign + filled.subrange(0, i as int));
        }
    }
    put(&mut text, '.');
    let ghost head = text@;
    proof {
        assert(text@ =~= head + filled.subrange(i as int, i as int));
    }
    while i < total
        invariant
            total - scale as usize <= i <= total,
            total > scale,
            total == fill + digits@.len() == filled.len(),
            filled == zero_fill(digits@, least as int),
            fill == (if digits@.len() < least {
                least - digits@.len()
            } else {
                0
            }),
            text@ == head + filled.subrange(total - scale as usize, i as int),
        decreases total - i,
    {
        let c = if i < fill {
            '0'
        } else {
            digits[i - fill]
        };
        proof {
            assert(filled[i as int] == c);
            assert(filled.subrange(total - scale as usize, i + 1) =~= filled.subrange(
                total - scale as usize,
                i as int,
            ).push(c));
        }
        put(&mut text, c);
        i += 1;
        proof {
            assert(text@ =~= head + filled.subrange(total - scale as usize, i as int));
        }
    }
    text
}

/// Appends the fixed-point number `v` with `scale` fractional digits,
/// right-justified in a field of at least `width` characters.
pub(crate) fn push_fixed(out: &mut String, v: Fixed, scale: u8, width: usize)
    ensures
        final(out)@ == old(out)@ + pad_left(fixed_text(v, scale as nat), width as int),
{
    let text = fixed_string(v, scale);
    push_right(out, text.as_str(), width);
}

/// The digits of a number are digits, at least one, and write the number.
pub proof fn lemma_decimal_writes_number(n: nat)
    ensures
        decimal(n).len() >= 1,
        all_digits(decimal(n)),
        digits_value(decimal(n)) == n,
    decreases n,
{
    if n < 10 {
        let c = digit_char(n as int);
        assert(is_digit(c) && digit_value(c) == n);
        assert(decimal(n) =~= Seq::<char>::empty().push(c));
        lemma_digits_value_push(Seq::empty(), c);
    } else {
        let c = digit_char((n % 10) as int);
        assert(is_digit(c) && digit_value(c) == n % 10);
        lemma_decimal_writes_number(n / 10);
        lemma_digits_value_push(decimal(n / 10), c);
    }
}

/// Zeros before the digits of a number do not change the number.
pub proof fn lemma_zeros_before_digits(s: Seq<char>, n: int)
    requires
        all_digits(s),
    ensures
        all_digits(zeros(n) + s),
        digits_value(zeros(n) + s) == digits_value(s),
    decreases s.len(), n,
{
    let filled = zeros(n) + s;
    assert(all_digits(filled)) by {
        assert forall|i: int| 0 <= i < filled.len() implies is_digit(#[trigger] filled[i]) by {
            if i >= zeros(n).len() {
                assert(filled[i] == s[i - zeros(n).len()]);
            }
        }
    }
    if s.len() > 0 {
        assert(all_digits(s.drop_last())) by {
            assert forall|i: int| 0 <= i < s.drop_last().len() implies is_digit(
                #[trigger] s.drop_last()[i],
            ) by {
                assert(s.drop_last()[i] == s[i]);
            }
        }
        lemma_zeros_before_digits(s.drop_last(), n);
        assert(filled.drop_last() =~= zeros(n) + s.drop_last());
        assert(filled.last() == s.last());
    } else if n > 0 {
        lemma_zeros_before_digits(s, n - 1);
        assert(filled.drop_last() =~= zeros(n - 1) + s);
        assert(filled.last() == '0');
    } else {
        assert(filled =~= s);
    }
}

/// An unsigned integer written in base ten is read back as itself.
pub proof fn lemma_decimal_parses(n: u32)
    ensures
        parse_u32_text(decimal(n as nat)) == Some(n),
{
    lemma_decimal_writes_number(n as nat);
    assert(is_digit(decimal(n as nat)[0]));
}

/// How the text of a fixed-point number is made up: after the sign, if any,
/// come the digits before the point, the point, and `scale` digits behind it,
/// and the digits together write the magnitude of the number.
proof fn lemma_fixed_text_parts(v: Fixed, scale: nat) -> (parts: (Seq<char>, Seq<char>))
    ensures
        fixed_text(v, scale) == (if v.negative {
            seq!['-']
        } else {
            Seq::<char>::empty()
        }) + (parts.0 + seq!['.'] + parts.1),
        parts.0.len() >= 1,
        parts.1.len() == scale,
        all_digits(parts.0),
        all_digits(parts.1),
        digits_value(parts.0 + parts.1) == v.magnitude,
        parts.0 + parts.1 == zero_fill(decimal(v.magnitude as nat), scale as int + 1),
{
    let magnitude = v.magnitude as nat;
    lemma_decimal_writes_number(magnitude);
    let digits = zero_fill(decimal(magnitude), scale as int + 1);
    lemma_zeros_before_digits(decimal(magnitude), scale as int + 1 - decimal(magnitude).len());
    let k = digits.len() - scale;
    let whole = digits.subrange(0, k);
    let fraction = digits.subrange(k, digits.len() as int);
    assert(whole + fraction =~= digits);
    assert(all_digits(whole)) by {
        assert forall|i: int| 0 <= i < whole.len() implies is_digit(#[trigger] whole[i]) by {
            assert(whole[i] == digits[i]);
        }
    }
    assert(all_digits(fraction)) by {
        assert forall|i: int| 0 <= i < fraction.len() implies is_digit(#[trigger] fraction[i]) by {
            assert(fraction[i] == digits[k + i]);
        }
    }
    let sign = if v.negative {
        seq!['-']
    } else {
        Seq::<char>::empty()
    };
    assert(fixed_text(v, scale) =~= sign + (whole + seq!['.'] + fraction));
    (whole, fraction)
}

/// An unsigned numeral made of digits, a point and digits has its parts where
/// they are looked for.
proof fn lemma_parts_of_body(whole: Seq<char>, fraction: Seq<char>)
    requires
        all_digits(whole),
    ensures
        whole_digits(whole + seq!['.'] + fraction) == whole,
        fraction_digits(whole + seq!['.'] + fraction) == fraction,
{
    let body = whole + seq!['.'] + fraction;
    let k = whole.len() as int;
    assert forall|j: int| 0 <= j < k implies #[trigger] body[j] != '.' by {
        assert(body[j] == whole[j]);
        assert(is_digit(whole[j]));
    }
    assert(body[k] == '.');
    lemma_point_index(body, k);
    assert(whole_digits(body) =~= whole);
    assert(fraction_digits(body) =~= fraction);
}

/// A text made of a minus sign or none, digits, a point and `scale` more
/// digits stands for the number that its digits write.
proof fn lemma_parse_of_parts(negative: bool, whole: Seq<char>, fraction: Seq<char>, scale: nat)
    requires
        whole.len() >= 1,
        all_digits(whole),
        fraction.len() == scale,
    ensures
        parse_fixed_text(
            (if negative {
                seq!['-']
            } else {
                Seq::<char>::empty()
            }) + (whole + seq!['.'] + fraction),
            scale,
        ) == exact_value(negative, whole, fraction, scale),
{
    let body = whole + seq!['.'] + fraction;
    let sign = if negative {
        seq!['-']
    } else {
        Seq::<char>::empty()
    };
    let text = sign + body;
    lemma_parts_of_body(whole, fraction);
    assert(is_digit(whole[0]));
    assert(body[0] == whole[0]);
    if negative {
        assert(text[0] == '-');
        assert(text.drop_first() =~= body);
    } else {
        assert(text =~= body);
    }
    assert(surplus(fraction, scale) =~= Seq::<char>::empty());
    assert(counted(fraction, scale) == fraction);
}

/// A fixed-point number written with `scale` fractional digits is read back
/// as itself, with its sign: a zero with a minus sign too.
pub proof fn lemma_fixed_text_parses(v: Fixed, scale: nat)
    ensures
        parse_fixed_text(fixed_text(v, scale), scale) == Some(v),
{
    let parts = lemma_fixed_text_parts(v, scale);
    lemma_parse_of_parts(v.negative, parts.0, parts.1, scale);
    assert(parts.0 + parts.1 + zeros(scale - parts.1.len()) =~= parts.0 + parts.1);
}

/// Ten to the power of `k`.
pub open spec fn pow10(k: nat) -> nat
    decreases k,
{
    if k == 0 {
        1
    } else {
        10 * pow10((k - 1) as nat)
    }
}

/// A number below ten to the power of `k` has at most `k` digits.
pub proof fn lemma_decimal_len(n: nat, k: nat)
    requires
        k >= 1,
        n < pow10(k),
    ensures
        decimal(n).len() <= k,
    decreases k,
{
    if n >= 10 {
        assert(k >= 2) by {
            reveal_with_fuel(pow10, 2);
        }
        lemma_decimal_len(n / 10, (k - 1) as nat);
    }
}

/// The text of a fixed-point number whose magnitude is below ten to the power
/// of `k` has at most `k` digits, a point, and a minus sign if the number has one.
/// It is made of ASCII characters and neither begins nor ends with white space.
pub proof fn lemma_fixed_text_shape(v: Fixed, scale: nat, k: nat)
    requires
        k > scale,
        v.magnitude < pow10(k),
    ensures
        2 <= fixed_text(v, scale).len() <= k + 1 + (if v.negative {
            1int
        } else {
            0int
        }),
        forall|i: int|
            0 <= i < fixed_text(v, scale).len() ==> {
                let c = #[trigger] fixed_text(v, scale)[i];
                is_digit(c) || c == '.' || c == '-'
            },
{
    let magnitude = v.magnitude as nat;
    lemma_decimal_writes_number(magnitude);
    lemma_decimal_len(magnitude, k);
    let digits = zero_fill(decimal(magnitude), scale as int + 1);
    lemma_zeros_before_digits(decimal(magnitude), scale as int + 1 - decimal(magnitude).len());
    let text = fixed_text(v, scale);
    let cut = digits.len() - scale;
    let sign: int = if v.negative {
        1
    } else {
        0
    };
    assert(text.len() == sign + digits.len() + 1);
    assert forall|i: int| 0 <= i < text.len() implies {
        let c = #[trigger] text[i];
        is_digit(c) || c == '.' || c == '-'
    } by {
        if i < sign {
            assert(text[i] == '-');
        } else if i < sign + cut {
            assert(text[i] == digits[i - sign]);
            assert(is_digit(digits[i - sign]));
        } else if i == sign + cut {
            assert(text[i] == '.');
        } else {
            assert(text[i] == digits[i - sign - 1]);
            assert(is_digit(digits[i - sign - 1]));
        }
    }
}

/// Whether the text is the way an unsigned integer is written: digits only,
/// at least one, and no zero before another digit.
pub open spec fn is_plain_integer(t: Seq<char>) -> bool {
    &&& t.len() >= 1
    &&& all_digits(t)
    &&& (t.len() > 1 ==> t[0] != '0')
}

/// The text without its minus sign, if it has one.
pub open spec fn unsigned_part(t: Seq<char>) -> Seq<char> {
    if t.len() > 0 && t[0] == '-' {
        t.drop_first()
    } else {
        t
    }
}

/// The digits of a text that has `scale` of them behind its point, without
/// the sign and the point.
pub open spec fn plain_fixed_digits(t: Seq<char>, scale: nat) -> Seq<char> {
    let body = unsigned_part(t);
    let point = body.len() - scale - 1;
    body.subrange(0, point) + body.subrange(point + 1, body.len() as int)
}

/// Whether the text is the way a fixed-point number is written with `scale`
/// fractional digits: a minus sign or none, a plain integer, a point, and
/// `scale` digits.
pub open spec fn is_plain_fixed(t: Seq<char>, scale: nat) -> bool {
    let body = unsigned_part(t);
    let point = body.len() - scale - 1;
    &&& point >= 1
    &&& is_plain_integer(body.subrange(0, point))
    &&& body[point] == '.'
    &&& all_digits(body.subrange(point + 1, body.len() as int))
}

proof fn lemma_all_digits_of_head(s: Seq<char>)
    requires
        all_digits(s),
        s.len() > 0,
    ensures
        all_digits(s.drop_last()),
        is_digit(s.last()),
{
    assert forall|i: int| 0 <= i < s.drop_last().len() implies is_digit(
        #[trigger] s.drop_last()[i],
    ) by {
        assert(s.drop_last()[i] == s[i]);
    }
}

/// Digits that begin with another digit than zero write a number above zero.
proof fn lemma_leading_digit_counts(s: Seq<char>)
    requires
        all_digits(s),
        s.len() >= 1,
        s[0] != '0',
    ensures
        digits_value(s) >= 1,
{
    lemma_digits_value_grows(s, 1);
    let first = s.subrange(0, 1);
    assert(first =~= Seq::<char>::empty().push(s[0]));
    lemma_digits_value_push(Seq::empty(), s[0]);
    assert(is_digit(s[0]));
}

/// A plain integer text is the digits of the number that it writes.
pub proof fn lemma_plain_integer_written(t: Seq<char>)
    requires
        is_plain_integer(t),
    ensures
        decimal(digits_value(t)) == t,
    decreases t.len(),
{
    let head = t.drop_last();
    let c = t.last();
    lemma_all_digits_of_head(t);
    assert(digit_char(digit_value(c) as int) == c);
    if head.len() == 0 {
        assert(t =~= seq![c]);
        assert(digits_value(head) == 0);
    } else {
        assert(head[0] == t[0]);
        lemma_plain_integer_written(head);
        if t[0] != '0' {
            lemma_leading_digit_counts(head);
        }
        let v = digits_value(head);
        assert(v >= 1);
        assert((v * 10 + digit_value(c)) / 10 == v);
        assert((v * 10 + digit_value(c)) % 10 == digit_value(c));
        assert(decimal(v).push(c) =~= t);
    }
}

/// A plain integer text that writes a number of 32 bits is read as that
/// number, and the number is written as the text.
pub proof fn lemma_plain_integer_round_trips(t: Seq<char>)
    requires
        is_plain_integer(t),
        digits_value(t) <= u32::MAX,
    ensures
        parse_u32_text(t) == Some(digits_value(t) as u32),
        decimal(digits_value(t)) == t,
{
    lemma_plain_integer_written(t);
    assert(is_digit(t[0]));
}

/// Digits are the digits of the number that they write, with zeros before
/// them to make up their length.
proof fn lemma_digits_refilled(s: Seq<char>)
    requires
        all_digits(s),
        s.len() >= 1,
    ensures
        decimal(digits_value(s)).len() <= s.len(),
        zero_fill(decimal(digits_value(s)), s.len() as int) == s,
    decreases s.len(),
{
    let head = s.drop_last();
    let c = s.last();
    lemma_all_digits_of_head(s);
    assert(digit_char(digit_value(c) as int) == c);
    let v = digits_value(head);
    let n = v * 10 + digit_value(c);
    if head.len() == 0 {
        assert(v == 0);
        assert(zero_fill(decimal(n), 1) =~= s);
    } else {
        lemma_digits_refilled(head);
        assert(n / 10 == v);
        assert(n % 10 == digit_value(c));
        if v == 0 {
            assert(decimal(0) =~= seq!['0']);
            assert(zero_fill(seq!['0'], head.len() as int) == head);
            assert(zero_fill(decimal(n), s.len() as int) =~= head.push(c));
        } else {
            assert(decimal(n) == decimal(v).push(c));
            assert(zero_fill(decimal(n), s.len() as int) =~= zero_fill(
                decimal(v),
                head.len() as int,
            ).push(c));
        }
        assert(head.push(c) =~= s);
    }
}

/// The digits of a plain integer and `scale` more digits behind them are the
/// digits of the number that they write together, filled with zeros to
/// `scale` and one.
proof fn lemma_plain_digits_written(whole: Seq<char>, fraction: Seq<char>, scale: nat)
    requires
        is_plain_integer(whole),
        all_digits(fraction),
        fraction.len() == scale,
    ensures
        all_digits(whole + fraction),
        zero_fill(decimal(digits_value(whole + fraction)), scale as int + 1) == whole + fraction,
{
    let digits = whole + fraction;
    assert(all_digits(digits)) by {
        assert forall|i: int| 0 <= i < digits.len() implies is_digit(#[trigger] digits[i]) by {
            if i < whole.len() {
                assert(digits[i] == whole[i]);
            } else {
                assert(digits[i] == fraction[i - whole.len()]);
            }
        }
    }
    lemma_digits_refilled(digits);
    let written = decimal(digits_value(digits));
    if whole.len() == 1 {
        assert(digits.len() == scale + 1);
    } else {
        assert(digits[0] == whole[0]);
        if written.len() < digits.len() {
            assert(zero_fill(written, digits.len() as int)[0] == '0');
        }
        assert(zero_fill(written, scale as int + 1) =~= written);
        assert(zero_fill(written, digits.len() as int) =~= written);
    }
}

/// How a plainly written fixed-point text is made up: a minus sign or none,
/// then the digits before the point, the point, and the digits behind it.
proof fn lemma_plain_fixed_parts(t: Seq<char>, scale: nat) -> (parts: (Seq<char>, Seq<char>))
    requires
        is_plain_fixed(t, scale),
    ensures
        is_plain_integer(parts.0),
        all_digits(parts.1),
        parts.1.len() == scale,
        parts.0 + parts.1 == plain_fixed_digits(t, scale),
        unsigned_part(t) == parts.0 + seq!['.'] + parts.1,
        t == (if t[0] == '-' {
            seq!['-']
        } else {
            Seq::<char>::empty()
        }) + (parts.0 + seq!['.'] + parts.1),
        has_sign(t) == (t[0] == '-'),
        t.len() > 0,
{
    let body = unsigned_part(t);
    let point = body.len() - scale - 1;
    let whole = body.subrange(0, point);
    let fraction = body.subrange(point + 1, body.len() as int);
    assert(body =~= whole + seq!['.'] + fraction);
    assert(is_digit(whole[0]));
    assert(body[0] == whole[0]);
    if t[0] == '-' {
        assert(t =~= seq!['-'] + body);
    } else {
        assert(t =~= Seq::<char>::empty() + body);
    }
    (whole, fraction)
}

/// A plain fixed-point text whose digits write a magnitude of 64 bits is read
/// as a number, and that number is written as the text: with a minus sign
/// before a zero too.
pub proof fn lemma_plain_fixed_round_trips(t: Seq<char>, scale: nat)
    requires
        is_plain_fixed(t, scale),
        digits_value(plain_fixed_digits(t, scale)) <= u64::MAX,
    ensures
        parse_fixed_text(t, scale) is Some,
        fixed_text(parse_fixed_text(t, scale)->0, scale) == t,
{
    let parts = lemma_plain_fixed_parts(t, scale);
    let whole = parts.0;
    let fraction = parts.1;
    let digits = whole + fraction;
    let v = Fixed { negative: t[0] == '-', magnitude: digits_value(digits) as u64 };
    lemma_plain_digits_written(whole, fraction, scale);
    assert(parse_fixed_text(t, scale) == Some(v)) by {
        lemma_parse_of_parts(v.negative, whole, fraction, scale);
        assert(digits + zeros(scale - fraction.len()) =~= digits);
    }
    assert(fixed_text(v, scale) == t) by {
        assert(digits.subrange(0, digits.len() - scale) =~= whole);
        assert(digits.subrange(digits.len() - scale, digits.len() as int) =~= fraction);
        let sign = if v.negative {
            seq!['-']
        } else {
            Seq::<char>::empty()
        };
        assert(sign + whole + seq!['.'] + fraction =~= sign + (whole + seq!['.'] + fraction));
    }
}

/// The digits of a number above zero do not begin with a zero.
proof fn lemma_decimal_leading_digit(n: nat)
    requires
        n >= 1,
    ensures
        decimal(n).len() >= 1,
        decimal(n)[0] != '0',
    decreases n,
{
    if n >= 10 {
        lemma_decimal_leading_digit(n / 10);
        assert(decimal(n)[0] == decimal(n / 10)[0]);
    }
}

/// What is written for an unsigned integer is plainly written.
pub proof fn lemma_decimal_is_plain(n: nat)
    ensures
        is_plain_integer(decimal(n)),
{
    lemma_decimal_writes_number(n);
    if n >= 1 {
        lemma_decimal_leading_digit(n);
    }
}

/// What is written for a fixed-point number is plainly written, whatever its
/// sign and its magnitude: a zero with a minus sign too.
pub proof fn lemma_fixed_text_is_plain(v: Fixed, scale: nat)
    ensures
        is_plain_fixed(fixed_text(v, scale), scale),
{
    let parts = lemma_fixed_text_parts(v, scale);
    let whole = parts.0;
    let fraction = parts.1;
    let body = whole + seq!['.'] + fraction;
    let text = fixed_text(v, scale);
    assert(is_digit(whole[0]));
    assert(body[0] == whole[0]);
    if v.negative {
        assert(text[0] == '-');
        assert(text.drop_first() =~= body);
    } else {
        assert(text =~= body);
    }
    assert(unsigned_part(text) == body);
    let point = body.len() - scale - 1;
    assert(point == whole.len());
    assert(body.subrange(0, point) =~= whole);
    assert(body[point] == '.');
    assert(body.subrange(point + 1, body.len() as int) =~= fraction);
    if whole.len() > 1 {
        let written = decimal(v.magnitude as nat);
        let digits = zero_fill(written, scale as int + 1);
        assert(digits.len() == whole.len() + fraction.len());
        assert(zeros(scale as int + 1 - written.len()) =~= Seq::<char>::empty());
        assert(digits =~= written);
        assert(written.len() > 1);
        lemma_decimal_leading_digit(v.magnitude as nat);
        assert(whole[0] == (whole + fraction)[0]);
    }
}

/// Digits write a number below ten to the power of their count.
pub proof fn lemma_digits_value_bound(s: Seq<char>)
    requires
        all_digits(s),
    ensures
        digits_value(s) < pow10(s.len()),
    decreases s.len(),
{
    if s.len() > 0 {
        lemma_all_digits_of_head(s);
        lemma_digits_value_bound(s.drop_last());
    }
}

/// Ten to a greater power is a greater number.
pub proof fn lemma_pow10_grows(j: nat, k: nat)
    requires
        j <= k,
    ensures
        1 <= pow10(j) <= pow10(k),
    decreases k,
{
    if j < k {
        lemma_pow10_grows(j, (k - 1) as nat);
    } else if k > 0 {
        lemma_pow10_grows((j - 1) as nat, (k - 1) as nat);
    }
}

/// Fewer than ten digits write a number of 32 bits, fewer than nineteen a
/// number of 64 bits.
pub proof fn lemma_few_digits_are_small(s: Seq<char>)
    requires
        all_digits(s),
    ensures
        s.len() <= 9 ==> digits_value(s) <= u32::MAX,
        s.len() <= 18 ==> digits_value(s) <= u64::MAX,
{
    lemma_digits_value_bound(s);
    if s.len() <= 9 {
        lemma_pow10_grows(s.len(), 9);
        assert(pow10(9) == 1_000_000_000) by {
            reveal_with_fuel(pow10, 10);
        }
    }
    if s.len() <= 18 {
        lemma_pow10_grows(s.len(), 18);
        assert(pow10(18) == 1_000_000_000_000_000_000) by {
            reveal_with_fuel(pow10, 19);
        }
    }
}

/// The digits of a plainly written fixed-point number are digits, one fewer
/// than the text has characters without its sign.
pub proof fn lemma_plain_fixed_digits(t: Seq<char>, scale: nat)
    requires
        is_plain_fixed(t, scale),
    ensures
        all_digits(plain_fixed_digits(t, scale)),
        plain_fixed_digits(t, scale).len() == unsigned_part(t).len() - 1,
        unsigned_part(t).len() <= t.len(),
{
    let body = unsigned_part(t);
    let point = body.len() - scale - 1;
    let whole = body.subrange(0, point);
    let fraction = body.subrange(point + 1, body.len() as int);
    let digits = plain_fixed_digits(t, scale);
    assert forall|i: int| 0 <= i < digits.len() implies is_digit(#[trigger] digits[i]) by {
        if i < whole.len() {
            assert(digits[i] == whole[i]);
        } else {
            assert(digits[i] == fraction[i - whole.len()]);
        }
    }
}

} // verus!

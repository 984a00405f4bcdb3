//! Numbers: integers as text in a radix, and real numbers as bit patterns.

use vstd::prelude::*;
use vstd::slice::slice_subrange;
use crate::text::{fill, put_chars, put_right, right_aligned};

verus! {

/// A double-precision number, carried as its IEEE 754 bit pattern.
#[derive(Debug, Clone, Copy, PartialEq, Eq, Structural)]
pub struct Real {
    pub bits: u64,
}

impl Real {
    /// Sign and magnitude as one integer: orders the numbers, with both zeros alike.
    pub open spec fn rank(self) -> int {
        if self.bits >= 0x8000_0000_0000_0000 {
            0x8000_0000_0000_0000 - self.bits
        } else {
            self.bits as int
        }
    }

    /// Whether this is not a number: the exponent is all ones and the fraction is not zero.
    pub open spec fn nan(self) -> bool {
        self.rank() > 0x7FF0_0000_0000_0000 || self.rank() < -0x7FF0_0000_0000_0000
    }

    /// Whether this number is less than another.
    pub open spec fn lt(self, other: Real) -> bool {
        !self.nan() && !other.nan() && self.rank() < other.rank()
    }

    /// Whether this number is zero or greater.
    pub open spec fn is_nonneg(self) -> bool {
        !self.nan() && self.rank() >= 0
    }

    /// The smaller of two numbers; what is not a number gives way.
    pub open spec fn lower_of(self, other: Real) -> Real {
        if self.nan() || other.lt(self) {
            other
        } else {
            self
        }
    }

    /// The greater of two numbers; what is not a number gives way.
    pub open spec fn upper_of(self, other: Real) -> Real {
        if self.nan() || self.lt(other) {
            other
        } else {
            self
        }
    }

    fn order(self) -> (r: i128)
        ensures
            r == self.rank(),
    {
        if self.bits >= 0x8000_0000_0000_0000 {
            0x8000_0000_0000_0000 - self.bits as i128
        } else {
            self.bits as i128
        }
    }

    /// Whether this is not a number.
    pub fn is_nan(self) -> (r: bool)
        ensures
            r == self.nan(),
    {
        let k: i128 = self.order();
        k > 0x7FF0_0000_0000_0000 || k < -0x7FF0_0000_0000_0000
    }

    /// Whether this number is less than another.
    pub fn less(self, other: Real) -> (r: bool)
        ensures
            r == self.lt(other),
    {
        !self.is_nan() && !other.is_nan() && self.order() < other.order()
    }

    /// Whether this number is zero or greater.
    pub fn nonneg(self) -> (r: bool)
        ensures
            r == self.is_nonneg(),
    {
        !self.is_nan() && self.order() >= 0
    }

    /// The smaller of two numbers; what is not a number gives way.
    pub fn lower(self, other: Real) -> (r: Real)
        ensures
            r == self.lower_of(other),
    {
        if self.is_nan() || other.less(self) {
            other
        } else {
            self
        }
    }

    /// The greater of two numbers; what is not a number gives way.
    pub fn upper(self, other: Real) -> (r: Real)
        ensures
            r == self.upper_of(other),
    {
        if self.is_nan() || self.less(other) {
            other
        } else {
            self
        }
    }
}

/// Why a text is not an integer.
#[derive(Debug, Clone, Copy, PartialEq, Eq, Structural)]
pub enum IntError {
    Empty,
    Digit,
    TooLarge,
    TooSmall,
}

impl IntError {
    /// The message for the error.
    pub open spec fn message(self) -> Seq<char> {
        match self {
            IntError::Empty => "cannot parse integer from empty string"@,
            IntError::Digit => "invalid digit found in string"@,
            IntError::TooLarge => "number too large to fit in target type"@,
            IntError::TooSmall => "number too small to fit in target type"@,
        }
    }

    /// The message for the error.
    pub fn text(self) -> (r: &'static str)
        ensures
            r@ == self.message(),
    {
        match self {
            IntError::Empty => "cannot parse integer from empty string",
            IntError::Digit => "invalid digit found in string",
            IntError::TooLarge => "number too large to fit in target type",
            IntError::TooSmall => "number too small to fit in target type",
        }
    }
}

/// The value of a digit: `0`-`9`, then letters of either case. At least 36 for anything else.
pub open spec fn digit_value(c: char) -> int {
    let n = c as int;
    if '0' <= c <= '9' {
        n - 48
    } else if 'a' <= c <= 'z' {
        n - 87
    } else if 'A' <= c <= 'Z' {
        n - 55
    } else {
        36
    }
}

/// The digits of a number, most significant first, after a value already read.
pub open spec fn scan(acc: int, s: Seq<char>, radix: int, max: int) -> Result<int, IntError>
    decreases s.len(),
{
    if s.len() == 0 {
        Ok(acc)
    } else if digit_value(s[0]) >= radix {
        Err(IntError::Digit)
    } else if acc * radix + digit_value(s[0]) > max {
        Err(IntError::TooLarge)
    } else {
        scan(acc * radix + digit_value(s[0]), s.skip(1), radix, max)
    }
}

/// An unsigned number with an optional `+` in front.
pub open spec fn parsed(s: Seq<char>, radix: int, max: int) -> Result<int, IntError> {
    if s.len() == 0 {
        Err(IntError::Empty)
    } else if s.len() == 1 && (s[0] == '+' || s[0] == '-') {
        Err(IntError::Digit)
    } else if s[0] == '+' {
        scan(0, s.skip(1), radix, max)
    } else {
        scan(0, s, radix, max)
    }
}

/// A signed decimal 64-bit number.
pub open spec fn parsed_signed(s: Seq<char>) -> Option<int> {
    if s.len() > 1 && s[0] == '-' {
        match scan(0, s.skip(1), 10, 0x8000_0000_0000_0000) {
            Ok(v) => Some(-v),
            Err(_) => None,
        }
    } else {
        match parsed(s, 10, 0x7FFF_FFFF_FFFF_FFFF) {
            Ok(v) => Some(v),
            Err(_) => None,
        }
    }
}

/// The value of a digit, or 36.
pub fn digit_of(c: char) -> (r: u32)
    ensures
        r == digit_value(c),
        r <= 36,
{
    if '0' <= c && c <= '9' {
        c as u32 - 48
    } else if 'a' <= c && c <= 'z' {
        c as u32 - 87
    } else if 'A' <= c && c <= 'Z' {
        c as u32 - 55
    } else {
        36
    }
}

fn read_digits(s: &[char], radix: u32, max: u64) -> (r: Result<u64, IntError>)
    requires
        2 <= radix <= 36,
    ensures
        match r {
            Ok(v) => scan(0, s@, radix as int, max as int) == Ok::<int, IntError>(v as int),
            Err(e) => scan(0, s@, radix as int, max as int) == Err::<int, IntError>(e),
        },
{
    let mut acc: u64 = 0;
    let mut i: usize = 0;
    assert(s@.skip(0) =~= s@);
    while i < s.len()
        invariant
            i <= s@.len(),
            2 <= radix <= 36,
            acc <= max,
            scan(0, s@, radix as int, max as int) == scan(
                acc as int,
                s@.skip(i as int),
                radix as int,
                max as int,
            ),
        decreases s@.len() - i,
    {
        let d: u32 = digit_of(s[i]);
        assert(s@.skip(i as int)[0] == s@[i as int]);
        assert(s@.skip(i as int).skip(1) =~= s@.skip(i + 1));
        if d >= radix {
            return Err(IntError::Digit);
        }
        assert(acc * radix <= 0xFFFF_FFFF_FFFF_FFFF * 36) by (nonlinear_arith)
            requires
                acc <= 0xFFFF_FFFF_FFFF_FFFF,
                radix <= 36,
        ;
        let next: u128 = (acc as u128) * (radix as u128) + (d as u128);
        if next > max as u128 {
            return Err(IntError::TooLarge);
        }
        acc = next as u64;
        i = i + 1;
    }
    Ok(acc)
}

/// Reads an unsigned number in a radix, with an optional `+` in front.
pub fn parse_uint(s: &[char], radix: u32, max: u64) -> (r: Result<u64, IntError>)
    requires
        2 <= radix <= 36,
    ensures
        match r {
            Ok(v) => parsed(s@, radix as int, max as int) == Ok::<int, IntError>(v as int),
            Err(e) => parsed(s@, radix as int, max as int) == Err::<int, IntError>(e),
        },
        r matches Ok(v) ==> v <= max,
{
    if s.len() == 0 {
        return Err(IntError::Empty);
    }
    if s.len() == 1 && (s[0] == '+' || s[0] == '-') {
        return Err(IntError::Digit);
    }
    proof {
        lemma_scan_max(0, s@, radix as int, max as int);
        lemma_scan_max(0, s@.skip(1), radix as int, max as int);
    }
    if s[0] == '+' {
        read_digits(slice_subrange(s, 1, s.len()), radix, max)
    } else {
        read_digits(s, radix, max)
    }
}

/// Reads a signed decimal number.
pub fn parse_i64(s: &[char]) -> (r: Option<i64>)
    ensures
        match r {
            Some(v) => parsed_signed(s@) == Some(v as int),
            None => parsed_signed(s@) is None,
        },
{
    if s.len() > 1 && s[0] == '-' {
        proof {
            lemma_scan_max(0, s@.skip(1), 10, 0x8000_0000_0000_0000);
        }
        match read_digits(slice_subrange(s, 1, s.len()), 10, 0x8000_0000_0000_0000) {
            Ok(v) => {
                let w: i128 = -(v as i128);
                Some(w as i64)
            },
            Err(_) => None,
        }
    } else {
        match parse_uint(s, 10, 0x7FFF_FFFF_FFFF_FFFF) {
            Ok(v) => Some(v as i64),
            Err(_) => None,
        }
    }
}

pub proof fn lemma_scan_max(acc: int, s: Seq<char>, radix: int, max: int)
    requires
        0 <= acc <= max,
        radix >= 2,
    ensures
        scan(acc, s, radix, max) matches Ok(v) ==> 0 <= v <= max,
    decreases s.len(),
{
    if s.len() > 0 && digit_value(s[0]) < radix {
        assert(acc * radix >= 0) by (nonlinear_arith)
            requires
                acc >= 0,
                radix >= 2,
        ;
        if acc * radix + digit_value(s[0]) <= max {
            lemma_scan_max(acc * radix + digit_value(s[0]), s.skip(1), radix, max);
        }
    }
}

/// The digit for a value under 16.
pub open spec fn digit_char(d: int) -> char {
    if d < 10 {
        (48 + d) as char
    } else {
        (55 + d) as char
    }
}

/// The digits of `n`, without leading zeros.
pub open spec fn digits(n: int, radix: int) -> Seq<char>
    decreases n,
{
    if n < radix || radix < 2 {
        seq![digit_char(n)]
    } else {
        proof {
            lemma_quotient(n, radix);
        }
        digits(n / radix, radix).push(digit_char(n % radix))
    }
}

/// The decimal digits of `n`.
pub open spec fn decimal(n: int) -> Seq<char> {
    digits(n, 10)
}

/// The hexadecimal digits of `n` in capitals, at least `w` of them.
pub open spec fn hex_padded(n: int, w: int) -> Seq<char> {
    right_aligned(digits(n, 16), w, '0')
}

pub proof fn lemma_quotient(n: int, radix: int)
    requires
        n >= radix >= 2,
    ensures
        0 <= n / radix < n,
        0 <= n % radix < radix,
        n == (n / radix) * radix + n % radix,
{
    assert(0 <= n / radix < n && 0 <= n % radix < radix && n == (n / radix) * radix + n % radix)
        by (nonlinear_arith)
        requires
            n >= radix >= 2,
    ;
}

fn digit_to_char(d: u64) -> (r: char)
    requires
        d < 16,
    ensures
        r == digit_char(d as int),
{
    if d < 10 {
        (48 + d as u8) as char
    } else {
        (55 + d as u8) as char
    }
}

/// Writes `n` in a radix.
pub fn format_uint(n: u64, radix: u64) -> (r: Vec<char>)
    requires
        2 <= radix <= 16,
    ensures
        r@ == digits(n as int, radix as int),
    decreases n,
{
    if n < radix {
        let mut v: Vec<char> = Vec::new();
        v.push(digit_to_char(n));
        assert(v@ =~= digits(n as int, radix as int));
        v
    } else {
        proof {
            lemma_quotient(n as int, radix as int);
        }
        let mut v = format_uint(n / radix, radix);
        v.push(digit_to_char(n % radix));
        v
    }
}

/// Appends the decimal digits of `n`.
pub fn put_decimal(out: &mut Vec<char>, n: u64)
    ensures
        final(out)@ == old(out)@ + decimal(n as int),
{
    let v = format_uint(n, 10);
    put_chars(out, v.as_slice());
}

/// Appends the hexadecimal digits of `n`, at least `w` of them.
pub fn put_hex(out: &mut Vec<char>, n: u64, w: usize)
    ensures
        final(out)@ == old(out)@ + hex_padded(n as int, w as int),
{
    let v = format_uint(n, 16);
    put_right(out, v.as_slice(), w, '0');
}

/// Reading one more digit at the end.
pub proof fn lemma_scan_push(acc: int, s: Seq<char>, c: char, radix: int, max: int)
    ensures
        scan(acc, s.push(c), radix, max) == (match scan(acc, s, radix, max) {
            Ok(v) => scan(v, seq![c], radix, max),
            Err(e) => Err(e),
        }),
    decreases s.len(),
{
    if s.len() == 0 {
        assert(s.push(c) =~= seq![c]);
    } else {
        assert(s.push(c)[0] == s[0]);
        assert(s.push(c).skip(1) =~= s.skip(1).push(c));
        if digit_value(s[0]) < radix && acc * radix + digit_value(s[0]) <= max {
            lemma_scan_push(acc * radix + digit_value(s[0]), s.skip(1), c, radix, max);
        }
    }
}

pub proof fn lemma_digit_char(d: int)
    requires
        0 <= d < 16,
    ensures
        digit_value(digit_char(d)) == d,
        digit_char(d) != '+',
        digit_char(d) != '-',
        '0' <= digit_char(d) <= 'F',
        digit_char(d) <= '9' || digit_char(d) >= 'A',
{
}

/// Digits read back give the number they were written for.
pub proof fn lemma_scan_digits(n: int, radix: int, max: int)
    requires
        2 <= radix <= 16,
        0 <= n <= max,
    ensures
        scan(0, digits(n, radix), radix, max) == Ok::<int, IntError>(n),
        digits(n, radix).len() > 0,
        forall|i: int|
            0 <= i < digits(n, radix).len() ==> exists|d: int|
                0 <= d < radix && #[trigger] digits(n, radix)[i] == #[trigger] digit_char(d),
    decreases n,
{
    if n < radix {
        lemma_digit_char(n);
        let s = seq![digit_char(n)];
        assert(s.skip(1) =~= Seq::<char>::empty());
        assert(0 * radix == 0) by (nonlinear_arith);
        assert(scan(n, s.skip(1), radix, max) == Ok::<int, IntError>(n));
    } else {
        lemma_quotient(n, radix);
        let q = n / radix;
        let r = n % radix;
        lemma_scan_digits(q, radix, max);
        lemma_scan_push(0, digits(q, radix), digit_char(r), radix, max);
        lemma_digit_char(r);
        let s = seq![digit_char(r)];
        assert(s.skip(1) =~= Seq::<char>::empty());
        assert(scan(n, s.skip(1), radix, max) == Ok::<int, IntError>(n));
        assert forall|i: int| 0 <= i < digits(n, radix).len() implies exists|d: int|
            0 <= d < radix && #[trigger] digits(n, radix)[i] == #[trigger] digit_char(d) by {
            if i < digits(q, radix).len() {
                let d = choose|d: int|
                    0 <= d < radix && #[trigger] digits(q, radix)[i] == #[trigger] digit_char(d);
                assert(digits(n, radix)[i] == digit_char(d));
            } else {
                assert(digits(n, radix)[i] == digit_char(r));
            }
        }
    }
}

/// Zeros in front do not change the value.
pub proof fn lemma_scan_zeros(k: int, s: Seq<char>, radix: int, max: int)
    requires
        2 <= radix,
        0 <= k,
        0 <= max,
    ensures
        scan(0, fill('0', k) + s, radix, max) == scan(0, s, radix, max),
    decreases k,
{
    if k == 0 {
        assert(fill('0', 0) + s =~= s);
    } else {
        let t = fill('0', k) + s;
        assert(t[0] == '0');
        assert(t.skip(1) =~= fill('0', k - 1) + s);
        assert(0 * radix == 0) by (nonlinear_arith);
        lemma_scan_zeros(k - 1, s, radix, max);
    }
}

/// Each character of a padded number is a capital digit.
pub open spec fn is_hex_char(c: char) -> bool {
    '0' <= c <= '9' || 'A' <= c <= 'F'
}

/// A padded hexadecimal number read back.
pub proof fn lemma_hex_padded(n: int, w: int, max: int)
    requires
        0 <= n <= max,
    ensures
        parsed(hex_padded(n, w), 16, max) == Ok::<int, IntError>(n),
        hex_padded(n, w).len() > 0,
        hex_padded(n, w).len() >= w,
        forall|i: int| 0 <= i < hex_padded(n, w).len() ==> is_hex_char(#[trigger] hex_padded(n, w)[i]),
{
    let d = digits(n, 16);
    let s = hex_padded(n, w);
    lemma_scan_digits(n, 16, max);
    let k = if w > d.len() {
        w - d.len()
    } else {
        0
    };
    assert(s =~= fill('0', k) + d);
    lemma_scan_zeros(k, d, 16, max);
    assert forall|i: int| 0 <= i < s.len() implies is_hex_char(#[trigger] s[i]) by {
        if i < k {
            assert(s[i] == '0');
        } else {
            assert(s[i] == d[i - k]);
            let v = choose|v: int| 0 <= v < 16 && #[trigger] d[i - k] == #[trigger] digit_char(v);
            lemma_digit_char(v);
        }
    }
    assert(is_hex_char(s[0]));
}

/// A decimal number read back.
pub proof fn lemma_decimal(n: int, max: int)
    requires
        0 <= n <= max,
    ensures
        parsed(decimal(n), 10, max) == Ok::<int, IntError>(n),
        decimal(n).len() > 0,
        forall|i: int| 0 <= i < decimal(n).len() ==> '0' <= #[trigger] decimal(n)[i] <= '9',
{
    let s = decimal(n);
    lemma_scan_digits(n, 10, max);
    assert forall|i: int| 0 <= i < s.len() implies '0' <= #[trigger] s[i] <= '9' by {
        let v = choose|v: int| 0 <= v < 10 && #[trigger] digits(n, 10)[i] == #[trigger] digit_char(v);
        lemma_digit_char(v);
    }
    assert('0' <= s[0] <= '9');
}

/// `radix` to the power `w`.
pub open spec fn power(radix: int, w: nat) -> int
    decreases w,
{
    if w == 0 {
        1
    } else {
        radix * power(radix, (w - 1) as nat)
    }
}

/// A number below `radix` to the power `w` has at most `w` digits.
pub proof fn lemma_digits_len(n: int, radix: int, w: nat)
    requires
        2 <= radix,
        0 <= n < power(radix, w),
        w >= 1,
    ensures
        digits(n, radix).len() <= w,
    decreases w,
{
    if n >= radix {
        lemma_quotient(n, radix);
        let p = power(radix, (w - 1) as nat);
        if w == 1 {
            assert(p == 1);
            assert(radix * p == radix) by (nonlinear_arith)
                requires
                    p == 1,
            ;
        } else {
            assert(n / radix < p) by (nonlinear_arith)
                requires
                    n < radix * p,
                    n == (n / radix) * radix + n % radix,
                    n % radix >= 0,
                    radix >= 2,
            ;
            lemma_digits_len(n / radix, radix, (w - 1) as nat);
        }
    }
}

/// Widths of padded hexadecimal numbers.
pub proof fn lemma_hex_width(n: int, w: nat)
    requires
        0 <= n,
        w == 1 && n <= 0xF || w == 2 && n <= 0xFF || w == 3 && n <= 0xFFF || w == 8 && n <= 0xFFFF_FFFF,
    ensures
        hex_padded(n, w as int).len() == w,
{
    assert(power(16, 1) == 0x10) by {
        reveal_with_fuel(power, 2);
    }
    assert(power(16, 2) == 0x100) by {
        reveal_with_fuel(power, 3);
    }
    assert(power(16, 3) == 0x1000) by {
        reveal_with_fuel(power, 4);
    }
    assert(power(16, 8) == 0x1_0000_0000) by {
        reveal_with_fuel(power, 9);
    }
    lemma_digits_len(n, 16, w);
}

/// Bit patterns compare as the numbers that they stand for: by magnitude among numbers with
/// a plus sign, the other way round among those with a minus sign, with both zeros alike and
/// everything below zero under everything above. What is not a number, having a magnitude
/// beyond that of infinity, compares with nothing.
pub proof fn law_real_order(a: Real, b: Real)
    ensures
        ({
            let sign: int = 0x8000_0000_0000_0000;
            let inf: int = 0x7FF0_0000_0000_0000;
            let (x, y) = (a.bits as int % sign, b.bits as int % sign);
            let (m, n) = (a.bits >= sign, b.bits >= sign);
            &&& a.nan() == (x > inf)
            &&& a.nan() || b.nan() ==> !a.lt(b)
            &&& !a.nan() && !b.nan() ==> {
                &&& !m && !n ==> a.lt(b) == (x < y)
                &&& m && n ==> a.lt(b) == (x > y)
                &&& m && !n ==> a.lt(b) == (x > 0 || y > 0)
                &&& !m && n ==> !a.lt(b)
            }
            &&& a.is_nonneg() == (!a.nan() && (!m || x == 0))
        }),
{
}

/// The lower and the upper of two numbers are among them and enclose both; what is not a
/// number gives way to what is.
pub proof fn law_lower_and_upper(a: Real, b: Real)
    ensures
        a.lower_of(b) == a || a.lower_of(b) == b,
        a.upper_of(b) == a || a.upper_of(b) == b,
        !a.lt(a.lower_of(b)) && !b.lt(a.lower_of(b)),
        !a.upper_of(b).lt(a) && !a.upper_of(b).lt(b),
        !a.nan() || !b.nan() ==> !a.lower_of(b).nan() && !a.upper_of(b).nan(),
{
}

/// The digits are `0` to `9` and the letters after them, of either case alike.
pub proof fn law_digit_values(c: char)
    ensures
        '0' <= c <= '9' ==> digit_value(c) == c as int - '0' as int,
        'a' <= c <= 'z' ==> digit_value(c) == c as int - 'a' as int + 10,
        'A' <= c <= 'Z' ==> digit_value(c) == c as int - 'A' as int + 10,
        !('0' <= c <= '9') && !('a' <= c <= 'z') && !('A' <= c <= 'Z') ==> digit_value(c) >= 36,
{
}

proof fn lemma_scan_grows(acc: int, s: Seq<char>, radix: int, max: int)
    requires
        acc >= 0,
        radix >= 2,
    ensures
        scan(acc, s, radix, max) matches Ok(v) ==> v >= acc,
    decreases s.len(),
{
    if s.len() > 0 && digit_value(s[0]) < radix {
        let next = acc * radix + digit_value(s[0]);
        assert(acc * radix >= acc) by (nonlinear_arith)
            requires
                acc >= 0,
                radix >= 2,
        ;
        lemma_scan_grows(next, s.skip(1), radix, max);
    }
}

proof fn lemma_scan_limit(acc: int, s: Seq<char>, radix: int, max: int, all: int)
    requires
        0 <= acc <= max <= all,
        radix >= 2,
    ensures
        scan(acc, s, radix, all) matches Ok(v) ==> scan(acc, s, radix, max) == (if v <= max {
            Ok::<int, IntError>(v)
        } else {
            Err::<int, IntError>(IntError::TooLarge)
        }),
    decreases s.len(),
{
    if s.len() > 0 && digit_value(s[0]) < radix {
        let next = acc * radix + digit_value(s[0]);
        assert(acc * radix >= 0) by (nonlinear_arith)
            requires
                acc >= 0,
                radix >= 2,
        ;
        if next <= max {
            lemma_scan_limit(next, s.skip(1), radix, max, all);
        } else if next <= all {
            lemma_scan_grows(next, s.skip(1), radix, all);
        }
    }
}

/// What a text without a number is told: nothing there, something that is no digit, a number
/// above the limit. A plus in front means nothing.
pub proof fn law_texts_of_numbers(n: int, max: int, s: Seq<char>, i: int)
    requires
        0 <= n,
        0 <= max,
    ensures
        n <= max ==> parsed(decimal(n), 10, max) == Ok::<int, IntError>(n),
        n > max ==> parsed(decimal(n), 10, max) == Err::<int, IntError>(IntError::TooLarge),
        n <= max ==> parsed(seq!['+'] + decimal(n), 10, max) == Ok::<int, IntError>(n),
        parsed(Seq::empty(), 10, max) == Err::<int, IntError>(IntError::Empty),
        parsed(seq!['+'], 10, max) == Err::<int, IntError>(IntError::Digit),
        parsed(seq!['-'], 10, max) == Err::<int, IntError>(IntError::Digit),
        parsed(seq!['-'] + s, 10, max) == Err::<int, IntError>(IntError::Digit),
        0 <= i < s.len() && digit_value(s[i]) >= 10 && (i > 0 || s[0] != '+') ==> parsed(s, 10, max)
            is Err,
{
    let d = decimal(n);
    let all = if n > max {
        n
    } else {
        max
    };
    lemma_decimal(n, all);
    lemma_scan_digits(n, 10, all);
    lemma_scan_limit(0, d, 10, max, all);
    assert('0' <= d[0] <= '9');
    let p = seq!['+'] + d;
    assert(p.skip(1) =~= d);
    let m = seq!['-'] + s;
    assert(m[0] == '-');
    if 0 <= i < s.len() && digit_value(s[i]) >= 10 && (i > 0 || s[0] != '+') {
        lemma_scan_no_digit(0, s, 10, max, i);
        if s[0] == '+' {
            assert(s.skip(1)[i - 1] == s[i]);
            lemma_scan_no_digit(0, s.skip(1), 10, max, i - 1);
        }
    }
}

proof fn lemma_scan_no_digit(acc: int, s: Seq<char>, radix: int, max: int, i: int)
    requires
        0 <= i < s.len(),
        digit_value(s[i]) >= radix,
    ensures
        scan(acc, s, radix, max) is Err,
    decreases s.len(),
{
    if i > 0 {
        assert(s.skip(1)[i - 1] == s[i]);
        lemma_scan_no_digit(acc * radix + digit_value(s[0]), s.skip(1), radix, max, i - 1);
    }
}

/// Signed numbers read back over their whole range.
pub proof fn law_signed_numbers_read_back(n: i64)
    ensures
        n >= 0 ==> parsed_signed(decimal(n as int)) == Some(n as int),
        n < 0 ==> parsed_signed(seq!['-'] + decimal(-n)) == Some(n as int),
{
    if n >= 0 {
        lemma_decimal(n as int, 0x7FFF_FFFF_FFFF_FFFF);
        let d = decimal(n as int);
        assert('0' <= d[0] <= '9');
    } else {
        lemma_decimal(-n, 0x8000_0000_0000_0000);
        let d = decimal(-n);
        assert('0' <= d[0] <= '9');
        assert((seq!['-'] + d).skip(1) =~= d);
    }
}

/// Zero or more are the numbers without a sign, and the zero with one; what is not a number is
/// not.
pub proof fn law_zero_or_more(r: Real)
    ensures
        r.is_nonneg() == (!r.nan() && r.bits <= 0x8000_0000_0000_0000),
        r.nan() ==> !r.is_nonneg(),
{
}

/// A number is written with as few digits as it takes.
pub proof fn law_no_needless_zeros(n: int, radix: int)
    requires
        2 <= radix <= 16,
        0 <= n,
    ensures
        digits(n, radix).len() > 0,
        n > 0 ==> digits(n, radix)[0] != '0',
        n < radix ==> digits(n, radix).len() == 1,
        n >= radix ==> digits(n, radix).len() == digits(n / radix, radix).len() + 1,
    decreases n,
{
    if n >= radix {
        lemma_quotient(n, radix);
        if n / radix == 0 {
            assert((n / radix) * radix == 0) by (nonlinear_arith)
                requires
                    n / radix == 0,
            ;
        }
        law_no_needless_zeros(n / radix, radix);
    } else if n > 0 {
        lemma_digit_char(n);
        assert(digit_value('0') == 0);
    }
}

/// What is said of a text that is no number, a sentence of its own for each reason.
pub proof fn law_reasons_differ(a: IntError, b: IntError)
    ensures
        a.message() == b.message() ==> a == b,
        IntError::Empty.message() == "cannot parse integer from empty string"@,
        IntError::Digit.message() == "invalid digit found in string"@,
        IntError::TooLarge.message() == "number too large to fit in target type"@,
        IntError::TooSmall.message() == "number too small to fit in target type"@,
{
    reveal_strlit("cannot parse integer from empty string");
    reveal_strlit("invalid digit found in string");
    reveal_strlit("number too large to fit in target type");
    reveal_strlit("number too small to fit in target type");
    let s = a.message();
    assert(a == IntError::Empty <==> s[0] == 'c');
    assert(a == IntError::Digit <==> s[0] == 'i');
    assert(a == IntError::TooLarge <==> s[11] == 'l' && s[0] == 'n');
    assert(a == IntError::TooSmall <==> s[11] == 's' && s[0] == 'n');
}

} // verus!

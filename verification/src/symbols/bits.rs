//! Signals as bits of a frame's data.

use vstd::prelude::*;
use vstd::arithmetic::power2::{
    lemma2_to64, lemma2_to64_rest, lemma_pow2_pos, lemma_pow2_strictly_increases, lemma_pow2_unfold,
    pow2,
};

verus! {

/// Bit `pos` of the data: bit `pos % 8` of byte `pos / 8`, bit 0 being the lowest.
pub open spec fn bit_at(data: Seq<u8>, pos: int) -> int {
    (data[pos / 8] as int / pow2((pos % 8) as nat) as int) % 2
}

/// Turns a byte-wise reversed bit number into a running one and back: within each byte
/// the highest bit comes first.
pub open spec fn sawtooth(pos: int) -> int {
    8 * (pos / 8) + 7 - pos % 8
}

/// Position of a signal's bit `i`. Intel signals count from the lowest bit upwards;
/// Motorola signals from the highest bit in sawtooth order.
pub open spec fn bit_position(start: int, i: int, little_endian: bool) -> int {
    if little_endian {
        start + i
    } else {
        sawtooth(sawtooth(start) + i)
    }
}

/// Whether every bit of the signal lies in the data.
pub open spec fn signal_fits(len: int, start: int, size: int, little_endian: bool) -> bool {
    forall|i: int| 0 <= i < size ==> #[trigger] bit_position(start, i, little_endian) / 8 < len
}

/// The number that the first `n` bits of a signal stand for.
pub open spec fn bits_value(data: Seq<u8>, start: int, n: nat, little_endian: bool) -> int
    decreases n,
{
    if n == 0 {
        0
    } else {
        let bit = bit_at(data, bit_position(start, n - 1, little_endian));
        let low = bits_value(data, start, (n - 1) as nat, little_endian);
        if little_endian {
            low + bit * pow2((n - 1) as nat)
        } else {
            2 * low + bit
        }
    }
}

/// The raw value of a signal, where its bits lie in the data.
pub open spec fn raw_value(data: Seq<u8>, start: int, size: int, little_endian: bool) -> Option<int> {
    if 0 < size <= 64 && signal_fits(data.len() as int, start, size, little_endian) {
        Some(bits_value(data, start, size as nat, little_endian))
    } else {
        None
    }
}

/// Every bit is zero or one, and `n` bits make a number under 2 to the power `n`.
pub proof fn law_bits_in_range(data: Seq<u8>, start: int, n: nat, little_endian: bool)
    ensures
        0 <= bits_value(data, start, n, little_endian) < pow2(n),
    decreases n,
{
    if n == 0 {
        lemma2_to64();
    } else {
        law_bits_in_range(data, start, (n - 1) as nat, little_endian);
        lemma_pow2_unfold(n);
        let bit = bit_at(data, bit_position(start, n - 1, little_endian));
        let p = pow2((n - 1) as nat) as int;
        assert(bit * p == 0 || bit * p == p) by (nonlinear_arith)
            requires
                bit == 0 || bit == 1,
        ;
    }
}

/// Signals read only the bytes that hold their bits.
pub proof fn law_only_own_bytes_matter(
    a: Seq<u8>,
    b: Seq<u8>,
    start: int,
    size: int,
    little_endian: bool,
)
    requires
        a.len() == b.len(),
        forall|i: int|
            0 <= i < size ==> a[#[trigger] bit_position(start, i, little_endian) / 8]
                == b[bit_position(start, i, little_endian) / 8],
    ensures
        raw_value(a, start, size, little_endian) == raw_value(b, start, size, little_endian),
{
    if size >= 0 {
        lemma_same_bits(a, b, start, size as nat, little_endian);
    }
}

proof fn lemma_same_bits(a: Seq<u8>, b: Seq<u8>, start: int, n: nat, little_endian: bool)
    requires
        forall|i: int|
            0 <= i < n ==> a[#[trigger] bit_position(start, i, little_endian) / 8]
                == b[bit_position(start, i, little_endian) / 8],
    ensures
        bits_value(a, start, n, little_endian) == bits_value(b, start, n, little_endian),
    decreases n,
{
    if n > 0 {
        lemma_same_bits(a, b, start, (n - 1) as nat, little_endian);
        assert(bit_at(a, bit_position(start, n - 1, little_endian)) == bit_at(
            b,
            bit_position(start, n - 1, little_endian),
        ));
    }
}

fn small_power(k: u64) -> (r: u8)
    requires
        k < 8,
    ensures
        r == pow2(k as nat),
        r > 0,
{
    proof {
        lemma2_to64();
    }
    match k {
        0 => 1,
        1 => 2,
        2 => 4,
        3 => 8,
        4 => 16,
        5 => 32,
        6 => 64,
        _ => 128,
    }
}

fn read_bit(data: &[u8], pos: u64) -> (r: Option<u64>)
    ensures
        match r {
            Some(b) => pos / 8 < data@.len() && b == bit_at(data@, pos as int) && b <= 1,
            None => pos / 8 >= data@.len(),
        },
{
    let n: u64 = data.len() as u64;
    if pos / 8 >= n {
        return None;
    }
    let p: u8 = small_power(pos % 8);
    let byte: u8 = data[(pos / 8) as usize];
    assert(data@[pos as int / 8] == byte);
    Some(((byte / p) % 2) as u64)
}

fn extract_intel(data: &[u8], start: u32, size: u32) -> (r: Option<u64>)
    requires
        0 < size <= 64,
    ensures
        match r {
            Some(v) => raw_value(data@, start as int, size as int, true) == Some(v as int),
            None => raw_value(data@, start as int, size as int, true) is None,
        },
{
    let mut v: u128 = 0;
    let mut weight: u128 = 1;
    let mut i: u32 = 0;
    proof {
        lemma2_to64();
    }
    while i < size
        invariant
            i <= size <= 64,
            weight == pow2(i as nat),
            weight <= 0x1_0000_0000_0000_0000,
            v == bits_value(data@, start as int, i as nat, true),
            v < weight,
            forall|j: int| 0 <= j < i ==> #[trigger] bit_position(start as int, j, true) / 8 < data@.len(),
        decreases size - i,
    {
        let pos: u64 = start as u64 + i as u64;
        assert(bit_position(start as int, i as int, true) == pos);
        proof {
            lemma_pow2_unfold((i + 1) as nat);
            lemma2_to64_rest();
            lemma2_to64();
            if i + 1 < 64 {
                lemma_pow2_strictly_increases((i + 1) as nat, 64);
            }
        }
        match read_bit(data, pos) {
            Some(b) => {
                assert(b * weight == 0 || b * weight == weight) by (nonlinear_arith)
                    requires
                        b == 0 || b == 1,
                ;
                v = v + b as u128 * weight;
            },
            None => {
                return None;
            },
        }
        weight = weight * 2;
        i = i + 1;
    }
    proof {
        lemma2_to64_rest();
    }
    Some(v as u64)
}

/// The next position in sawtooth order is one down, or at the end of a byte 15 up.
proof fn lemma_sawtooth_step(start: int, i: int)
    requires
        start >= 0,
        i >= 0,
    ensures
        bit_position(start, 0, false) == start,
        bit_position(start, i, false) >= 0,
        ({
            let p = bit_position(start, i, false);
            bit_position(start, i + 1, false) == if p % 8 == 0 {
                p + 15
            } else {
                p - 1
            }
        }),
{
}

fn extract_motorola(data: &[u8], start: u32, size: u32) -> (r: Option<u64>)
    requires
        0 < size <= 64,
    ensures
        match r {
            Some(v) => raw_value(data@, start as int, size as int, false) == Some(v as int),
            None => raw_value(data@, start as int, size as int, false) is None,
        },
{
    let mut v: u128 = 0;
    let mut pos: u64 = start as u64;
    let mut i: u32 = 0;
    proof {
        lemma2_to64();
        lemma_sawtooth_step(start as int, 0);
    }
    while i < size
        invariant
            i <= size <= 64,
            pos == bit_position(start as int, i as int, false),
            pos <= 0xFFFF_FFFF + 15 * i,
            v == bits_value(data@, start as int, i as nat, false),
            forall|j: int|
                0 <= j < i ==> #[trigger] bit_position(start as int, j, false) / 8 < data@.len(),
        decreases size - i,
    {
        proof {
            law_bits_in_range(data@, start as int, i as nat, false);
            lemma2_to64_rest();
            lemma_pow2_strictly_increases(i as nat, 64);
            lemma_sawtooth_step(start as int, i as int);
        }
        match read_bit(data, pos) {
            Some(b) => {
                v = 2 * v + b as u128;
            },
            None => {
                return None;
            },
        }
        if pos % 8 == 0 {
            pos = pos + 15;
        } else {
            pos = pos - 1;
        }
        i = i + 1;
    }
    proof {
        law_bits_in_range(data@, start as int, size as nat, false);
        lemma2_to64_rest();
        if size < 64 {
            lemma_pow2_strictly_increases(size as nat, 64);
        }
    }
    Some(v as u64)
}

/// The raw value of a signal; `None` when it has no bits, more than 64, or bits outside
/// the data.
pub fn extract_bits(data: &[u8], start: u32, size: u32, little_endian: bool) -> (r: Option<u64>)
    ensures
        match r {
            Some(v) => raw_value(data@, start as int, size as int, little_endian) == Some(v as int),
            None => raw_value(data@, start as int, size as int, little_endian) is None,
        },
{
    if size == 0 || size > 64 {
        return None;
    }
    if little_endian {
        extract_intel(data, start, size)
    } else {
        extract_motorola(data, start, size)
    }
}

/// The low `size` bits of `v` in two's complement.
pub open spec fn signed_value(v: int, size: nat) -> int {
    let low = v % (pow2(size) as int);
    if low >= pow2((size - 1) as nat) {
        low - pow2(size)
    } else {
        low
    }
}

/// 2 to the power `n`.
pub fn power_of_two(n: u32) -> (r: u128)
    requires
        n <= 64,
    ensures
        r == pow2(n as nat),
        0 < r <= 0x1_0000_0000_0000_0000,
{
    let mut p: u128 = 1;
    let mut i: u32 = 0;
    proof {
        lemma2_to64();
        lemma2_to64_rest();
    }
    while i < n
        invariant
            i <= n <= 64,
            p == pow2(i as nat),
            0 < p <= 0x1_0000_0000_0000_0000,
        decreases n - i,
    {
        proof {
            lemma_pow2_unfold((i + 1) as nat);
            lemma2_to64_rest();
            if i + 1 < 64 {
                lemma_pow2_strictly_increases((i + 1) as nat, 64);
            }
        }
        p = p * 2;
        i = i + 1;
    }
    p
}

/// The low `size` bits of `v` in two's complement; 64 of them when `size` is larger.
pub fn sign_extend(v: u64, size: u32) -> (r: i64)
    requires
        size >= 1,
    ensures
        r == signed_value(
            v as int,
            if size > 64 {
                64
            } else {
                size as nat
            },
        ),
{
    let n: u32 = if size > 64 {
        64
    } else {
        size
    };
    let m: u128 = power_of_two(n);
    let h: u128 = power_of_two(n - 1);
    proof {
        lemma_pow2_unfold(n as nat);
        lemma2_to64_rest();
    }
    let low: u128 = v as u128 % m;
    if low >= h {
        (low as i128 - m as i128) as i64
    } else {
        low as i64
    }
}

/// A sign-extended value fits the signal's size.
pub proof fn law_sign_in_range(v: int, size: nat)
    requires
        v >= 0,
        size >= 1,
    ensures
        -(pow2((size - 1) as nat) as int) <= signed_value(v, size) < pow2((size - 1) as nat),
{
    lemma_pow2_unfold(size);
    lemma_pow2_pos(size);
}

/// A byte is made up of its eight bits.
pub proof fn law_byte_of_bits(data: Seq<u8>, k: int)
    requires
        0 <= k < data.len(),
    ensures
        bit_at(data, 8 * k) + 2 * bit_at(data, 8 * k + 1) + 4 * bit_at(data, 8 * k + 2) + 8 * bit_at(
            data,
            8 * k + 3,
        ) + 16 * bit_at(data, 8 * k + 4) + 32 * bit_at(data, 8 * k + 5) + 64 * bit_at(
            data,
            8 * k + 6,
        ) + 128 * bit_at(data, 8 * k + 7) == data[k],
{
    lemma2_to64();
    let b = data[k] as int;
    lemma_bit(data, k, 0, 1);
    lemma_bit(data, k, 1, 2);
    lemma_bit(data, k, 2, 4);
    lemma_bit(data, k, 3, 8);
    lemma_bit(data, k, 4, 16);
    lemma_bit(data, k, 5, 32);
    lemma_bit(data, k, 6, 64);
    lemma_bit(data, k, 7, 128);
    lemma_halves(b);
}

proof fn lemma_bit(data: Seq<u8>, k: int, j: int, w: int)
    requires
        0 <= k,
        0 <= j < 8,
        pow2(j as nat) == w,
    ensures
        bit_at(data, 8 * k + j) == (data[k] as int / w) % 2,
{
    assert((8 * k + j) / 8 == k);
    assert((8 * k + j) % 8 == j);
}

proof fn lemma_halves(b: int)
    requires
        0 <= b < 256,
    ensures
        b / 1 % 2 + 2 * (b / 2 % 2) + 4 * (b / 4 % 2) + 8 * (b / 8 % 2) + 16 * (b / 16 % 2) + 32 * (b
            / 32 % 2) + 64 * (b / 64 % 2) + 128 * (b / 128 % 2) == b,
{
    let c = b / 2;
    assert(b / 4 == c / 2);
    let d = c / 2;
    assert(b / 8 == d / 2);
    let e = d / 2;
    assert(b / 16 == e / 2);
    let f = e / 2;
    assert(b / 32 == f / 2);
    let g = f / 2;
    assert(b / 64 == g / 2);
    let h = g / 2;
    assert(b / 128 == h / 2);
}

proof fn lemma_weigh(s: int, c: int, b: int, p: int)
    ensures
        (s + c * b) * p == s * p + b * (c * p),
{
    assert((s + c * b) * p == s * p + b * (c * p)) by (nonlinear_arith);
}

/// Intel signals are little-endian: eight more bits at a byte's border are that byte, with a
/// weight above all bits before it.
#[verifier::spinoff_prover]
pub proof fn law_intel_bytes(data: Seq<u8>, first: int, k: nat)
    requires
        0 <= first,
        first + k < data.len(),
    ensures
        bits_value(data, 8 * first, 8 * (k + 1), true) == bits_value(data, 8 * first, 8 * k, true)
            + data[first + k] * pow2(8 * k),
{
    let s = 8 * first;
    let n = 8 * k;
    let v = |i: int| bits_value(data, s, (n + i) as nat, true);
    let b = |i: int| bit_at(data, s + n + i);
    let p = pow2(n) as int;
    law_byte_of_bits(data, first + k);
    assert forall|i: int| 0 <= i < 8 implies #[trigger] v(i + 1) == v(i) + b(i) * pow2((n + i) as nat) by {}
    lemma_pow2_unfold(n + 1);
    lemma_pow2_unfold(n + 2);
    lemma_pow2_unfold(n + 3);
    lemma_pow2_unfold(n + 4);
    lemma_pow2_unfold(n + 5);
    lemma_pow2_unfold(n + 6);
    lemma_pow2_unfold(n + 7);
    let (b0, b1, b2, b3) = (b(0), b(1), b(2), b(3));
    let (b4, b5, b6, b7) = (b(4), b(5), b(6), b(7));
    assert(v(1) == v(0) + b0 * p);
    assert(v(2) == v(1) + b1 * (2 * p));
    assert(v(3) == v(2) + b2 * (4 * p));
    assert(v(4) == v(3) + b3 * (8 * p));
    assert(v(5) == v(4) + b4 * (16 * p));
    assert(v(6) == v(5) + b5 * (32 * p));
    assert(v(7) == v(6) + b6 * (64 * p));
    assert(v(8) == v(7) + b7 * (128 * p));
    let byte = data[first + k] as int;
    lemma_weigh(0, 1, b0, p);
    lemma_weigh(b0, 2, b1, p);
    lemma_weigh(b0 + 2 * b1, 4, b2, p);
    lemma_weigh(b0 + 2 * b1 + 4 * b2, 8, b3, p);
    lemma_weigh(b0 + 2 * b1 + 4 * b2 + 8 * b3, 16, b4, p);
    lemma_weigh(b0 + 2 * b1 + 4 * b2 + 8 * b3 + 16 * b4, 32, b5, p);
    lemma_weigh(b0 + 2 * b1 + 4 * b2 + 8 * b3 + 16 * b4 + 32 * b5, 64, b6, p);
    lemma_weigh(b0 + 2 * b1 + 4 * b2 + 8 * b3 + 16 * b4 + 32 * b5 + 64 * b6, 128, b7, p);
    assert(byte == b0 + 2 * b1 + 4 * b2 + 8 * b3 + 16 * b4 + 32 * b5 + 64 * b6 + 128 * b7);
    assert(v(0) == bits_value(data, s, n, true));
    assert(v(8) == bits_value(data, s, (n + 8) as nat, true));
}

/// Motorola signals are big-endian: eight more bits at a byte's border are that byte, below
/// all bits before it.
#[verifier::spinoff_prover]
pub proof fn law_motorola_bytes(data: Seq<u8>, first: int, k: nat)
    requires
        0 <= first,
        first + k < data.len(),
    ensures
        bits_value(data, 8 * first + 7, 8 * (k + 1), false) == 256 * bits_value(
            data,
            8 * first + 7,
            8 * k,
            false,
        ) + data[first + k],
{
    let s = 8 * first + 7;
    let n = 8 * k;
    let v = |i: int| bits_value(data, s, (n + i) as nat, false);
    law_byte_of_bits(data, first + k);
    let c = 8 * (first + k);
    assert forall|i: int| 0 <= i < 8 implies #[trigger] v(i + 1) == 2 * v(i) + bit_at(data, c + 7 - i) by {
        assert(bit_position(s, n + i, false) == c + 7 - i);
    }
    assert(v(1) == 2 * v(0) + bit_at(data, c + 7));
    assert(v(2) == 2 * v(1) + bit_at(data, c + 6));
    assert(v(3) == 2 * v(2) + bit_at(data, c + 5));
    assert(v(4) == 2 * v(3) + bit_at(data, c + 4));
    assert(v(5) == 2 * v(4) + bit_at(data, c + 3));
    assert(v(6) == 2 * v(5) + bit_at(data, c + 2));
    assert(v(7) == 2 * v(6) + bit_at(data, c + 1));
    assert(v(8) == 2 * v(7) + bit_at(data, c));
    assert(v(0) == bits_value(data, s, n, false));
    assert(v(8) == bits_value(data, s, (n + 8) as nat, false));
}

/// One more bit of an Intel signal is the next bit of the data, above all others; one more bit
/// of a Motorola signal is the bit below in its byte, or the highest of the next byte, below
/// all others.
pub proof fn law_one_more_bit(data: Seq<u8>, start: int, n: nat)
    requires
        start >= 0,
    ensures
        bits_value(data, start, n + 1, true) == bits_value(data, start, n, true) + bit_at(
            data,
            start + n,
        ) * pow2(n),
        n <= start % 8 ==> bits_value(data, start, n + 1, false) == 2 * bits_value(
            data,
            start,
            n,
            false,
        ) + bit_at(data, start - n),
        n == start % 8 + 1 ==> bits_value(data, start, n + 1, false) == 2 * bits_value(
            data,
            start,
            n,
            false,
        ) + bit_at(data, 8 * (start / 8 + 1) + 7),
{
    if n <= start % 8 {
        assert(bit_position(start, n as int, false) == start - n);
    }
    if n == start % 8 + 1 {
        assert(bit_position(start, n as int, false) == 8 * (start / 8 + 1) + 7);
    }
}

/// An Intel signal has a value exactly when it has 1 to 64 bits and the last of them lies in
/// the data.
pub proof fn law_intel_signals_in_the_data(data: Seq<u8>, start: int, size: int)
    requires
        start >= 0,
    ensures
        raw_value(data, start, size, true) is Some <==> 1 <= size <= 64 && start + size <= 8
            * data.len(),
{
    if 1 <= size <= 64 {
        let n = data.len() as int;
        assert(bit_position(start, size - 1, true) == start + size - 1);
        if start + size <= 8 * n {
            assert forall|i: int| 0 <= i < size implies #[trigger] bit_position(start, i, true) / 8
                < n by {
                lemma_in_byte(start + i, n);
            }
        } else if signal_fits(n, start, size, true) {
            lemma_in_byte(start + size - 1, n);
        }
    }
}

proof fn lemma_in_byte(pos: int, n: int)
    requires
        pos >= 0,
    ensures
        pos / 8 < n <==> pos < 8 * n,
{
}

/// A Motorola signal within one byte has a value exactly when that byte is there; one whose
/// first byte is not there, or that has no bits or more than 64, has none.
pub proof fn law_motorola_signals_in_the_data(data: Seq<u8>, start: int, size: int)
    requires
        start >= 0,
    ensures
        1 <= size <= start % 8 + 1 ==> (raw_value(data, start, size, false) is Some <==> start / 8
            < data.len()),
        size < 1 || size > 64 || start / 8 >= data.len() ==> raw_value(data, start, size, false) is None,
{
    let n = data.len() as int;
    lemma_sawtooth_step(start, 0);
    assert(bit_position(start, 0, false) == start);
    if 1 <= size <= start % 8 + 1 && start / 8 < n {
        assert forall|i: int| 0 <= i < size implies #[trigger] bit_position(start, i, false) / 8 < n by {
            lemma_within_byte(start, i);
        }
    }
}

proof fn lemma_within_byte(start: int, i: int)
    requires
        start >= 0,
        0 <= i <= start % 8,
    ensures
        bit_position(start, i, false) == start - i,
        (start - i) / 8 == start / 8,
{
}

/// A number in two's complement is the one in its range that differs from the bits by a
/// multiple of 2 to the power of their count.
pub proof fn law_sign_keeps_the_bits(v: int, size: nat)
    requires
        0 <= v < pow2(size),
        size >= 1,
    ensures
        v < pow2((size - 1) as nat) ==> signed_value(v, size) == v,
        v >= pow2((size - 1) as nat) ==> signed_value(v, size) == v - pow2(size),
{
    lemma_pow2_unfold(size);
    vstd::arithmetic::div_mod::lemma_small_mod(v as nat, pow2(size));
}

} // verus!

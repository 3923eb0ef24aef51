//! Human-readable sizes.
//!
//! A size of 1024 bytes or more is shown in the largest binary unit that
//! keeps it at least one, to one decimal place below 100 and to whole
//! units from 100 on. The figure is the byte count as a double-precision
//! number divided by the unit, rounded to the nearest shown digit with
//! ties to even, so that it matches formatting the floating-point value.

use crate::text::push_char;
use vstd::prelude::*;

verus! {

/// `2` to the `k`.
pub open spec fn two_pow(k: nat) -> nat
    decreases k,
{
    if k == 0 {
        1
    } else {
        2 * two_pow((k - 1) as nat)
    }
}

/// Number of binary digits of `x`.
pub open spec fn bit_len(x: nat) -> nat
    decreases x,
{
    if x == 0 {
        0
    } else {
        1 + bit_len(x / 2)
    }
}

/// `num / den` rounded to the nearest integer, ties to even.
pub open spec fn round_even(num: nat, den: nat) -> nat {
    let q = num / den;
    let r = num % den;
    if 2 * r > den || (2 * r == den && q % 2 == 1) {
        q + 1
    } else {
        q
    }
}

/// `b` as the nearest double-precision number (53 significant bits, ties
/// to even).
pub open spec fn as_double(b: nat) -> nat {
    if bit_len(b) <= 53 {
        b
    } else {
        let s = (bit_len(b) - 53) as nat;
        round_even(b, two_pow(s)) * two_pow(s)
    }
}

/// `1024` to the `u`.
pub open spec fn kibi_pow(u: nat) -> nat {
    two_pow(10 * u)
}

/// The unit a value of `x` bytes is shown in, looking from unit `u` up:
/// the largest binary unit, up to exbibytes, that keeps it at least one.
pub open spec fn unit_from(x: nat, u: nat) -> nat
    decreases 6 - u,
{
    if u >= 6 || x < kibi_pow(u + 1) {
        u
    } else {
        unit_from(x, u + 1)
    }
}

/// The unit a value of `x` bytes is shown in.
pub open spec fn unit_of(x: nat) -> nat {
    unit_from(x, 0)
}

/// The name of unit `u`.
pub open spec fn unit_name(u: nat) -> Seq<char> {
    if u == 0 {
        seq!['B']
    } else {
        let prefix = if u == 1 {
            'K'
        } else if u == 2 {
            'M'
        } else if u == 3 {
            'G'
        } else if u == 4 {
            'T'
        } else if u == 5 {
            'P'
        } else {
            'E'
        };
        seq![prefix, 'i', 'B']
    }
}

/// The decimal digit for `d`.
pub open spec fn digit(d: nat) -> char {
    ((d % 10) + 48) as char
}

/// `n` in decimal.
pub open spec fn decimal(n: nat) -> Seq<char>
    decreases n,
{
    if n < 10 {
        seq![digit(n)]
    } else {
        decimal(n / 10).push(digit(n % 10))
    }
}

/// The text of a size of `bytes` bytes.
pub open spec fn size_text(bytes: nat) -> Seq<char> {
    if bytes < 1024 {
        decimal(bytes) + seq![' ', 'B']
    } else {
        let x = as_double(bytes);
        let u = unit_of(x);
        let scale = kibi_pow(u);
        let figure = if x >= 100 * scale {
            decimal(round_even(x, scale))
        } else {
            let tenths = round_even(10 * x, scale);
            decimal(tenths / 10).push('.').push(digit(tenths % 10))
        };
        figure + seq![' '] + unit_name(u)
    }
}

fn digit_char(d: u128) -> (c: char)
    requires
        d < 10,
    ensures
        c == digit(d as nat),
{
    if d == 0 {
        '0'
    } else if d == 1 {
        '1'
    } else if d == 2 {
        '2'
    } else if d == 3 {
        '3'
    } else if d == 4 {
        '4'
    } else if d == 5 {
        '5'
    } else if d == 6 {
        '6'
    } else if d == 7 {
        '7'
    } else if d == 8 {
        '8'
    } else {
        '9'
    }
}

/// Append `n` in decimal to `out`.
pub fn push_decimal(out: &mut String, n: u128)
    ensures
        final(out)@ == old(out)@ + decimal(n as nat),
    decreases n,
{
    if n >= 10 {
        push_decimal(out, n / 10);
    }
    push_char(out, digit_char(n % 10));
    proof {
        if n < 10 {
            assert(decimal(n as nat) == seq![digit(n as nat)]);
            assert(digit(n as nat) == digit((n % 10) as nat));
        }
    }
}

proof fn lemma_two_pow_bounds(k: nat)
    ensures
        two_pow(k) >= 1,
    decreases k,
{
    if k > 0 {
        lemma_two_pow_bounds((k - 1) as nat);
    }
}

proof fn lemma_two_pow_add(a: nat, b: nat)
    ensures
        two_pow(a + b) == two_pow(a) * two_pow(b),
    decreases b,
{
    if b == 0 {
        assert(two_pow(0) == 1);
        assert(a + b == a);
    } else {
        lemma_two_pow_add(a, (b - 1) as nat);
        assert((a + b - 1) as nat == a + (b - 1) as nat);
        assert(two_pow(a + b) == 2 * two_pow((a + b - 1) as nat));
        assert(two_pow(a) * two_pow(b) == two_pow(a) * (2 * two_pow((b - 1) as nat)));
        assert(two_pow(a) * (2 * two_pow((b - 1) as nat)) == 2 * (two_pow(a) * two_pow((b - 1) as nat))) by (nonlinear_arith);
    }
}

proof fn lemma_bit_len(x: nat, k: nat)
    ensures
        x < two_pow(k) <==> bit_len(x) <= k,
    decreases x,
{
    if x == 0 {
        lemma_two_pow_bounds(k);
    } else if k == 0 {
    } else {
        lemma_bit_len(x / 2, (k - 1) as nat);
        assert(two_pow(k) == 2 * two_pow((k - 1) as nat));
    }
}

proof fn lemma_two_pow_mono(i: nat, j: nat)
    requires
        i <= j,
    ensures
        two_pow(i) <= two_pow(j),
    decreases j,
{
    if i < j {
        lemma_two_pow_mono(i, (j - 1) as nat);
    }
}

/// `2^k` as a number, for `k` up to 11.
fn pow2_u128(k: u32) -> (r: u128)
    requires
        k <= 11,
    ensures
        r == two_pow(k as nat),
{
    let mut r: u128 = 1;
    let mut i: u32 = 0;
    while i < k
        invariant
            i <= k <= 11,
            r == two_pow(i as nat),
        decreases k - i,
    {
        proof {
            lemma_two_pow_mono(i as nat, 11);
            reveal_with_fuel(two_pow, 12);
            assert(two_pow(11) == 2048);
        }
        r = r * 2;
        i = i + 1;
    }
    r
}

fn round_even_u128(num: u128, den: u128) -> (r: u128)
    requires
        den > 0,
        num / den < u128::MAX,
    ensures
        r == round_even(num as nat, den as nat),
{
    let q = num / den;
    let rem = num % den;
    let twice = if rem > den / 2 {
        true
    } else if rem == den / 2 && den % 2 == 0 {
        q % 2 == 1
    } else {
        false
    };
    proof {
        assert(2 * rem > den <==> rem > den / 2);
        assert(2 * rem == den <==> (rem == den / 2 && den % 2 == 0));
    }
    if twice {
        q + 1
    } else {
        q
    }
}

/// The number of binary digits of `x`.
fn bits_of(x: u64) -> (r: u32)
    ensures
        r == bit_len(x as nat),
        r <= 64,
{
    let mut n = x;
    let mut r: u32 = 0;
    proof {
        reveal_with_fuel(two_pow, 65);
        assert(two_pow(64) == 0x1_0000_0000_0000_0000);
        lemma_bit_len(x as nat, 64);
    }
    while n > 0
        invariant
            r + bit_len(n as nat) == bit_len(x as nat),
            r <= 64 - bit_len(n as nat),
            bit_len(n as nat) <= 64,
        decreases n,
    {
        proof {
            lemma_bit_len(n as nat, 64);
            lemma_bit_len((n / 2) as nat, 63);
            assert(two_pow(64) == 2 * two_pow(63));
        }
        n = n / 2;
        r = r + 1;
    }
    r
}

/// A human-readable size such as `1023 B`, `1.5 KiB` or `150 MiB`.
pub fn size(bytes: u64) -> (r: String)
    ensures
        r@ == size_text(bytes as nat),
{
    let mut out = String::new();
    if bytes < 1024 {
        push_decimal(&mut out, bytes as u128);
        push_char(&mut out, ' ');
        push_char(&mut out, 'B');
        return out;
    }
    let n = bits_of(bytes);
    let x: u128 = if n <= 53 {
        bytes as u128
    } else {
        let s = n - 53;
        let p = pow2_u128(s);
        let b = bytes as u128;
        proof {
            lemma_two_pow_bounds(s as nat);
            assert((b / p) * p <= b) by (nonlinear_arith)
                requires
                    p >= 1,
            ;
            assert((b / p + 1) * p == (b / p) * p + p) by (nonlinear_arith);
            assert(p <= b + 1) by {
                lemma_bit_len(b as nat, (n - 1) as nat);
                lemma_two_pow_add(s as nat, (n - 1 - s) as nat);
                lemma_two_pow_bounds((n - 1 - s) as nat);
                assert(two_pow((n - 1) as nat) == p * two_pow((n - 1 - s) as nat));
                assert(p <= two_pow((n - 1) as nat)) by (nonlinear_arith)
                    requires
                        two_pow((n - 1) as nat) == p * two_pow((n - 1 - s) as nat),
                        two_pow((n - 1 - s) as nat) >= 1,
                        p >= 1,
                ;
            }
        }
        round_even_u128(b, p) * p
    };
    assert(x <= 2 * (u64::MAX as int) + 2);
    assert(x == as_double(bytes as nat));
    let mut u: u32 = 0;
    let mut scale: u128 = 1;
    proof {
        assert(two_pow(0) == 1);
    }
    proof {
        reveal_with_fuel(two_pow, 11);
        assert(two_pow(10) == 1024);
    }
    while u < 6 && x >= scale * 1024
        invariant
            u <= 6,
            scale == kibi_pow(u as nat),
            two_pow(10) == 1024,
            (u == 0 && scale == 1) || (u == 1 && scale == 0x400) || (u == 2 && scale == 0x10_0000) || (u == 3
                && scale == 0x4000_0000) || (u == 4 && scale == 0x100_0000_0000) || (u == 5 && scale
                == 0x4_0000_0000_0000) || (u == 6 && scale == 0x1000_0000_0000_0000),
            unit_from(x as nat, u as nat) == unit_of(x as nat),
        decreases 6 - u,
    {
        proof {
            lemma_two_pow_add(10 * u as nat, 10);
            assert(kibi_pow((u + 1) as nat) == scale * 1024);
        }
        scale = scale * 1024;
        u = u + 1;
    }
    proof {
        lemma_two_pow_add(10 * u as nat, 10);
        assert(unit_from(x as nat, u as nat) == u);
    }
    if x >= 100 * scale {
        push_decimal(&mut out, round_even_u128(x, scale));
    } else {
        let tenths = round_even_u128(10 * x, scale);
        push_decimal(&mut out, tenths / 10);
        push_char(&mut out, '.');
        push_char(&mut out, digit_char(tenths % 10));
    }
    push_char(&mut out, ' ');
    if u > 0 {
        let prefix = if u == 1 {
            'K'
        } else if u == 2 {
            'M'
        } else if u == 3 {
            'G'
        } else if u == 4 {
            'T'
        } else if u == 5 {
            'P'
        } else {
            'E'
        };
        push_char(&mut out, prefix);
        push_char(&mut out, 'i');
    }
    push_char(&mut out, 'B');
    out
}

} // verus!

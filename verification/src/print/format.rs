//! Numbers as text: decimal, hexadecimal, signed differences, and padding.
use vstd::prelude::*;

verus! {

/// The ASCII digit for `d`, which is below 16 (lower case past 9).
pub open spec fn digit_char(d: nat) -> u8 {
    if d < 10 {
        (0x30 + d) as u8
    } else {
        (0x57 + d) as u8
    }
}

/// The digits of `x` in the given base, most significant first, without leading zeros
/// (`0` for zero).
pub open spec fn digits(x: nat, base: nat) -> Seq<u8>
    decreases x,
{
    if base < 2 || x < base {
        seq![digit_char(x)]
    } else {
        proof {
            vstd::arithmetic::div_mod::lemma_div_decreases(x as int, base as int);
        }
        digits(x / base, base).push(digit_char(x % base))
    }
}

/// `x` in decimal, as `{}` formats it.
pub open spec fn decimal(x: nat) -> Seq<u8> {
    digits(x, 10)
}

/// `x` in lower-case hexadecimal, as `{:x}` formats it.
pub open spec fn hexadecimal(x: nat) -> Seq<u8> {
    digits(x, 16)
}

/// `n` spaces.
pub open spec fn spaces(n: nat) -> Seq<u8> {
    Seq::new(n, |i: int| 0x20u8)
}

/// Text of `count` characters padded with spaces on the left to `width` characters.
pub open spec fn pad_left(s: Seq<u8>, count: nat, width: nat) -> Seq<u8> {
    if count < width {
        spaces((width - count) as nat) + s
    } else {
        s
    }
}

/// Text of `count` characters padded with spaces on the right to `width` characters.
pub open spec fn pad_right(s: Seq<u8>, count: nat, width: nat) -> Seq<u8> {
    if count < width {
        s + spaces((width - count) as nat)
    } else {
        s
    }
}

/// `x` with its sign, as `{:+}` formats it.
pub open spec fn signed_decimal(x: int) -> Seq<u8> {
    if x < 0 {
        seq![0x2du8] + decimal((-x) as nat)
    } else {
        seq![0x2bu8] + decimal(x as nat)
    }
}

/// The value of the bits of `x` read as a signed number, as `x as i64` gives it.
pub open spec fn as_signed(x: u64) -> int {
    if x <= 0x7fff_ffff_ffff_ffff {
        x as int
    } else {
        x - 0x1_0000_0000_0000_0000
    }
}

pub proof fn lemma_digits_len(x: nat, base: nat)
    requires
        base >= 2,
    ensures
        digits(x, base).len() >= 1,
    decreases x,
{
    if x >= base {
        vstd::arithmetic::div_mod::lemma_div_decreases(x as int, base as int);
        lemma_digits_len(x / base, base);
    }
}

fn digit(d: u64) -> (res: u8)
    requires
        d < 16,
    ensures
        res == digit_char(d as nat),
{
    if d < 10 {
        (0x30 + d) as u8
    } else {
        (0x57 + d) as u8
    }
}

/// Append the digits of `x` in base `base`.
fn push_digits(out: &mut Vec<u8>, x: u64, base: u64)
    requires
        2 <= base <= 16,
    ensures
        final(out)@ == old(out)@ + digits(x as nat, base as nat),
    decreases x,
{
    if x < base {
        out.push(digit(x));
        assert(digits(x as nat, base as nat) == seq![digit_char(x as nat)]);
    } else {
        proof {
            vstd::arithmetic::div_mod::lemma_div_decreases(x as int, base as int);
        }
        push_digits(out, x / base, base);
        out.push(digit(x % base));
    }
}

/// Append `x` in decimal.
pub fn push_decimal(out: &mut Vec<u8>, x: u64)
    ensures
        final(out)@ == old(out)@ + decimal(x as nat),
{
    push_digits(out, x, 10);
}

/// Append `x` in lower-case hexadecimal.
pub fn push_hexadecimal(out: &mut Vec<u8>, x: u64)
    ensures
        final(out)@ == old(out)@ + hexadecimal(x as nat),
{
    push_digits(out, x, 16);
}

/// Append `n` spaces.
pub fn push_spaces(out: &mut Vec<u8>, n: usize)
    ensures
        final(out)@ == old(out)@ + spaces(n as nat),
{
    let ghost start = out@;
    let mut i: usize = 0;
    while i < n
        invariant
            0 <= i <= n,
            out@ == start + spaces(i as nat),
        decreases n - i,
    {
        out.push(0x20);
        assert(spaces((i + 1) as nat) =~= spaces(i as nat).push(0x20u8));
        i = i + 1;
    }
}

/// Append bytes.
pub fn push_bytes(out: &mut Vec<u8>, bytes: &[u8])
    ensures
        final(out)@ == old(out)@ + bytes@,
{
    let ghost start = out@;
    let mut i: usize = 0;
    while i < bytes.len()
        invariant
            0 <= i <= bytes@.len(),
            out@ == start + bytes@.take(i as int),
        decreases bytes@.len() - i,
    {
        out.push(bytes[i]);
        assert(bytes@.take(i + 1) =~= bytes@.take(i as int).push(bytes@[i as int]));
        i = i + 1;
    }
    assert(bytes@.take(bytes@.len() as int) =~= bytes@);
}

/// `x` in decimal.
pub fn decimal_text(x: u64) -> (res: Vec<u8>)
    ensures
        res@ == decimal(x as nat),
{
    let mut out: Vec<u8> = Vec::new();
    push_decimal(&mut out, x);
    assert(out@ =~= decimal(x as nat));
    out
}

/// The difference `b - a` of two numbers, each read as a signed number, with its sign:
/// what `{:+}` writes for `b as i64 - a as i64`.
pub fn signed_difference_text(a: u64, b: u64) -> (res: Vec<u8>)
    requires
        i64::MIN <= as_signed(b) - as_signed(a) <= i64::MAX,
    ensures
        res@ == signed_decimal(as_signed(b) - as_signed(a)),
{
    let sa = to_signed(a);
    let sb = to_signed(b);
    let d = sb - sa;
    let mut out: Vec<u8> = Vec::new();
    if d < 0 {
        out.push(0x2d);
        // The magnitude of the most negative value does not fit in an `i64`.
        let m: u64 = if d == i64::MIN {
            0x8000_0000_0000_0000
        } else {
            (-d) as u64
        };
        push_decimal(&mut out, m);
    } else {
        out.push(0x2b);
        push_decimal(&mut out, d as u64);
    }
    assert(out@ =~= signed_decimal(as_signed(b) - as_signed(a)));
    out
}

/// The bits of `x` read as a signed number.
fn to_signed(x: u64) -> (res: i64)
    ensures
        res == as_signed(x),
{
    if x <= 0x7fff_ffff_ffff_ffff {
        x as i64
    } else {
        // The two's complement value: x - 2^64, computed without overflow.
        let low: u64 = x - 0x8000_0000_0000_0000;
        (low as i64) - 0x7fff_ffff_ffff_ffff - 1
    }
}

} // verus!

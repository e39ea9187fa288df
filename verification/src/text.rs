//! Writing numbers as text.

use vstd::prelude::*;

verus! {

/// `String::push` appends one character to the end of a string.
pub assume_specification[ String::push ](s: &mut String, ch: char)
    ensures
        final(s)@ == old(s)@.push(ch),
;

/// The lower-case digit for a value below 16.
pub open spec fn digit(value: int) -> char {
    (if value < 10 {
        48 + value
    } else {
        87 + value
    }) as char
}

/// The last `width` hexadecimal digits of `n`, with leading zeros.
pub open spec fn hex(n: int, width: nat) -> Seq<char>
    decreases width,
{
    if width == 0 {
        Seq::empty()
    } else {
        hex(n / 16, (width - 1) as nat).push(digit(n % 16))
    }
}

/// The decimal digits of `n`, without leading zeros.
pub open spec fn decimal(n: nat) -> Seq<char>
    decreases n,
{
    if n < 10 {
        seq![digit(n as int)]
    } else {
        decimal(n / 10).push(digit((n % 10) as int))
    }
}

fn digit_char(value: u8) -> (ch: char)
    requires
        value < 16,
    ensures
        ch == digit(value as int),
{
    if value < 10 {
        (48 + value) as char
    } else {
        (87 + value) as char
    }
}

/// Appends the last `width` hexadecimal digits of `n`.
pub fn push_hex(out: &mut String, n: u128, width: usize)
    ensures
        final(out)@ == old(out)@ + hex(n as int, width as nat),
{
    // The last digit comes first.
    let mut digits: Vec<char> = Vec::new();
    let mut rest: u128 = n;
    let mut left: usize = width;
    while left > 0
        invariant
            hex(n as int, width as nat) == hex(rest as int, left as nat) + digits@.reverse(),
        decreases left,
    {
        let ghost before = digits@;
        digits.push(digit_char((rest % 16) as u8));
        assert(hex(rest as int, left as nat) + before.reverse() =~= hex(
            rest as int / 16,
            (left - 1) as nat,
        ) + digits@.reverse());
        rest = rest / 16;
        left = left - 1;
    }
    assert(hex(n as int, width as nat) =~= digits@.reverse());
    let mut i: usize = digits.len();
    while i > 0
        invariant
            i <= digits@.len(),
            out@ == old(out)@ + digits@.reverse().take(digits@.len() - i),
        decreases i,
    {
        i = i - 1;
        out.push(digits[i]);
    }
    assert(digits@.reverse().take(digits@.len() as int) =~= digits@.reverse());
}

/// Appends `n` in decimal.
pub fn push_decimal(out: &mut String, n: u64)
    ensures
        final(out)@ == old(out)@ + decimal(n as nat),
    decreases n,
{
    if n >= 10 {
        push_decimal(out, n / 10);
    }
    out.push(digit_char((n % 10) as u8));
}

/// Digits of different values differ.
proof fn lemma_digit_injective(a: int, b: int)
    requires
        0 <= a < 16,
        0 <= b < 16,
        digit(a) == digit(b),
    ensures
        a == b,
{
}

/// The number of values that `width` hexadecimal digits can tell apart.
pub open spec fn hex_values(width: nat) -> nat
    decreases width,
{
    if width == 0 {
        1
    } else {
        16 * hex_values((width - 1) as nat)
    }
}

/// Exactly as many digits are written as are asked for.
pub proof fn lemma_hex_len(n: int, width: nat)
    ensures
        hex(n, width).len() == width,
    decreases width,
{
    if width > 0 {
        lemma_hex_len(n / 16, (width - 1) as nat);
    }
}

/// Numbers that fit into the given number of digits are told apart by them.
pub proof fn lemma_hex_injective(a: int, b: int, width: nat)
    requires
        0 <= a < hex_values(width),
        0 <= b < hex_values(width),
        hex(a, width) == hex(b, width),
    ensures
        a == b,
    decreases width,
{
    if width > 0 {
        let shorter = (width - 1) as nat;
        assert(hex(a, width).last() == digit(a % 16));
        assert(hex(b, width).last() == digit(b % 16));
        lemma_digit_injective(a % 16, b % 16);
        assert(hex(a, width).drop_last() =~= hex(a / 16, shorter));
        assert(hex(b, width).drop_last() =~= hex(b / 16, shorter));
        lemma_hex_injective(a / 16, b / 16, shorter);
    }
}

/// Different numbers are written differently.
pub proof fn lemma_decimal_injective(a: nat, b: nat)
    requires
        decimal(a) == decimal(b),
    ensures
        a == b,
    decreases a,
{
    assert(decimal(a).last() == digit((a % 10) as int));
    assert(decimal(b).last() == digit((b % 10) as int));
    lemma_digit_injective((a % 10) as int, (b % 10) as int);
    lemma_decimal_len(a / 10);
    lemma_decimal_len(b / 10);
    if a >= 10 && b >= 10 {
        assert(decimal(a).drop_last() =~= decimal(a / 10));
        assert(decimal(b).drop_last() =~= decimal(b / 10));
        lemma_decimal_injective(a / 10, b / 10);
    }
}

/// At least one digit is written.
pub proof fn lemma_decimal_len(n: nat)
    ensures
        decimal(n).len() >= 1,
{
}

} // verus!

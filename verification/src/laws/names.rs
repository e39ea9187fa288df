//! What numbers and names look like as text.

use crate::frame::FileId;
use crate::symdb;
use crate::text;
use vstd::arithmetic::power::pow;
use vstd::prelude::*;

verus! {

/// The digit at each place of `digits` is that of `n` in the given base.
pub open spec fn are_digits(digits: Seq<char>, n: int, base: int) -> bool {
    forall|i: int|
        0 <= i < digits.len() ==> #[trigger] digits[i] == "0123456789abcdef"@[n / pow(
            base,
            (digits.len() - 1 - i) as nat,
        ) % base]
}

proof fn lemma_digit(value: int)
    requires
        0 <= value < 16,
    ensures
        text::digit(value) == "0123456789abcdef"@[value],
{
    reveal_strlit("0123456789abcdef");
}

proof fn lemma_more_digits(digits: Seq<char>, n: int, base: int)
    requires
        are_digits(digits, n / base, base),
        0 <= n,
        2 <= base <= 16,
    ensures
        are_digits(digits.push(text::digit(n % base)), n, base),
{
    let more = digits.push(text::digit(n % base));
    assert forall|i: int| 0 <= i < more.len() implies #[trigger] more[i]
        == "0123456789abcdef"@[n / pow(base, (more.len() - 1 - i) as nat) % base] by {
        if i == digits.len() {
            lemma_digit(n % base);
            vstd::arithmetic::power::lemma_pow0(base);
        } else {
            let e = (digits.len() - 1 - i) as nat;
            assert(more[i] == digits[i]);
            vstd::arithmetic::power::lemma_pow_positive(base, e);
            vstd::arithmetic::power::lemma_pow_adds(base, 1, e);
            vstd::arithmetic::power::lemma_pow1(base);
            vstd::arithmetic::div_mod::lemma_div_denominator(n, base, pow(base, e));
        }
    }
}

/// Hexadecimal text has the asked number of digits, and the digit at each place is that of the
/// number.
pub proof fn lemma_hex_digits(n: int, width: nat)
    requires
        0 <= n,
    ensures
        text::hex(n, width).len() == width,
        are_digits(text::hex(n, width), n, 16),
    decreases width,
{
    if width > 0 {
        lemma_hex_digits(n / 16, (width - 1) as nat);
        lemma_more_digits(text::hex(n / 16, (width - 1) as nat), n, 16);
    }
}

/// Decimal text has just as many digits as the number needs, and the digit at each place is that
/// of the number.
pub proof fn lemma_decimal_digits(n: nat)
    ensures
        ({
            let len = text::decimal(n).len();
            &&& len >= 1
            &&& n < pow(10, len)
            &&& len > 1 ==> pow(10, (len - 1) as nat) <= n
        }),
        are_digits(text::decimal(n), n as int, 10),
    decreases n,
{
    if n < 10 {
        lemma_more_digits(Seq::empty(), n as int, 10);
        assert(Seq::<char>::empty().push(text::digit(n as int)) =~= text::decimal(n));
        vstd::arithmetic::power::lemma_pow1(10);
    } else {
        lemma_decimal_digits(n / 10);
        lemma_more_digits(text::decimal(n / 10), n as int, 10);
        let len = text::decimal(n / 10).len();
        vstd::arithmetic::power::lemma_pow1(10);
        vstd::arithmetic::power::lemma_pow_adds(10, 1, len);
        vstd::arithmetic::power::lemma_pow_adds(10, 1, (len - 1) as nat);
        vstd::arithmetic::power::lemma_pow0(10);
    }
}

/// A file ID is written as 32 hexadecimal digits.
pub proof fn lemma_format_hex(id: FileId, hex: String)
    requires
        call_ensures(FileId::format_hex, (id,), hex),
    ensures
        hex@.len() == 32,
        are_digits(hex@, id.0 as int, 16),
{
    lemma_hex_digits(id.0 as int, 32);
}

/// A file is named by the 32 hexadecimal digits of its file ID and what kind of file it is.
pub proof fn lemma_path_for_id(id: FileId, temp: bool, name: String)
    requires
        call_ensures(symdb::path_for_id, (id, temp), name),
    ensures
        name@.len() >= 32,
        are_digits(name@.take(32), id.0 as int, 16),
        name@.skip(32) == if temp {
            ".symtree.temp"@
        } else {
            ".symtree"@
        },
{
    lemma_hex_digits(id.0 as int, 32);
    reveal_strlit(".symtree.temp");
    reveal_strlit(".symtree");
    reveal_strlit(".temp");
    assert(name@.take(32) =~= text::hex(id.0 as int, 32));
    assert(name@.skip(32) =~= if temp {
        ".symtree.temp"@
    } else {
        ".symtree"@
    });
}

/// A temporary file is named by the 32 hexadecimal digits of its file ID and by its writer's
/// number, in decimal.
pub proof fn lemma_temp_path_for_id(id: FileId, unique: u64, name: String)
    requires
        call_ensures(symdb::temp_path_for_id, (id, unique), name),
    ensures
        name@.len() >= 47,
        are_digits(name@.take(32), id.0 as int, 16),
        name@.subrange(32, 46) == ".symtree.temp."@,
        are_digits(name@.skip(46), unique as int, 10),
        name@.len() > 47 ==> pow(10, (name@.len() - 47) as nat) <= unique,
        unique < pow(10, (name@.len() - 46) as nat),
{
    lemma_hex_digits(id.0 as int, 32);
    lemma_decimal_digits(unique as nat);
    reveal_strlit(".symtree.temp.");
    assert(name@.take(32) =~= text::hex(id.0 as int, 32));
    assert(name@.subrange(32, 46) =~= ".symtree.temp."@);
    assert(name@.skip(46) =~= text::decimal(unique as nat));
}

/// Numbers are written behind what is there already, digit by digit.
pub proof fn lemma_push_numbers(
    hex: &mut String,
    decimal: &mut String,
    n: u128,
    width: usize,
    m: u64,
)
    requires
        call_ensures(text::push_hex, (hex, n, width), ()),
        call_ensures(text::push_decimal, (decimal, m), ()),
    ensures
        ({
            let (before, after) = (old(hex)@, final(hex)@);
            &&& after.len() == before.len() + width
            &&& after.take(before.len() as int) == before
            &&& are_digits(after.skip(before.len() as int), n as int, 16)
        }),
        ({
            let (before, after) = (old(decimal)@, final(decimal)@);
            let written = after.skip(before.len() as int);
            &&& after.take(before.len() as int) == before
            &&& written.len() >= 1
            &&& are_digits(written, m as int, 10)
            &&& m < pow(10, written.len())
            &&& written.len() > 1 ==> pow(10, (written.len() - 1) as nat) <= m
        }),
{
    lemma_hex_digits(n as int, width as nat);
    lemma_decimal_digits(m as nat);
    assert(final(hex)@.take(old(hex)@.len() as int) =~= old(hex)@);
    assert(final(hex)@.skip(old(hex)@.len() as int) =~= text::hex(n as int, width as nat));
    assert(final(decimal)@.take(old(decimal)@.len() as int) =~= old(decimal)@);
    assert(final(decimal)@.skip(old(decimal)@.len() as int) =~= text::decimal(m as nat));
}

} // verus!

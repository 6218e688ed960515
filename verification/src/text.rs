//! Numbers, byte counts and digests as text.
use vstd::arithmetic::power::{lemma_pow0, lemma_pow1, lemma_pow_adds, pow};
use vstd::prelude::*;
use vstd::string::*;

verus! {

/// Whole numbers below this one are `f64` values.
pub const DOUBLE_LIMIT: u64 = 0x20_0000_0000_0000;

/// Bytes in a kilobyte, a megabyte and a gigabyte.
pub const KB: u64 = 1024;

pub const MB: u64 = 1_048_576;

pub const GB: u64 = 1_073_741_824;

/// The character for the digit `d`, upper case from ten on.
pub open spec fn digit_char(d: nat) -> char {
    if d < 10 {
        (48 + d) as char
    } else {
        (55 + d) as char
    }
}

/// `n` in decimal, without leading zeros.
pub open spec fn decimal(n: nat) -> Seq<char>
    decreases n,
{
    if n < 10 {
        seq![digit_char(n)]
    } else {
        decimal(n / 10).push(digit_char(n % 10))
    }
}

/// The last `width` digits of `n` in base sixteen.
pub open spec fn hex_digits(n: nat, width: nat) -> Seq<char>
    decreases width,
{
    if width == 0 {
        Seq::empty()
    } else {
        hex_digits(n / 16, (width - 1) as nat).push(digit_char(n % 16))
    }
}

/// `num / den`, rounded to the nearest whole number and to the even one of two that are
/// equally near.
pub open spec fn half_even(num: nat, den: nat) -> nat {
    let floor = num / den;
    let rest = num % den;
    if 2 * rest < den || (2 * rest == den && floor % 2 == 0) {
        floor
    } else {
        floor + 1
    }
}

/// `n` rounded to a multiple of the least doubling of `unit` that leaves at most 53
/// significant bits.
pub open spec fn significant(n: nat, unit: nat) -> nat
    decreases n - unit,
    when unit > 0
{
    if n < DOUBLE_LIMIT * unit {
        half_even(n, unit) * unit
    } else {
        significant(n, 2 * unit)
    }
}

/// The value of `n` as an `f64`.
pub open spec fn as_double(n: nat) -> nat {
    significant(n, 1)
}

/// `n / scale` with one digit after the point, followed by `unit`.
pub open spec fn scaled(n: nat, scale: nat, unit: Seq<char>) -> Seq<char> {
    let tenths = half_even(10 * as_double(n), scale);
    decimal(tenths / 10) + seq!['.'] + seq![digit_char(tenths % 10)] + unit
}

/// How a byte count is shown: in the largest unit that it reaches.
pub open spec fn size_text(n: nat) -> Seq<char> {
    if n >= GB {
        scaled(n, GB as nat, " GB"@)
    } else if n >= MB {
        scaled(n, MB as nat, " MB"@)
    } else if n >= KB {
        scaled(n, KB as nat, " KB"@)
    } else {
        decimal(n) + " B"@
    }
}

/// The text of the digit `d`.
fn digit_text(d: u64) -> (s: &'static str)
    requires
        d < 16,
    ensures
        s@ == seq![digit_char(d as nat)],
{
    proof {
        reveal_strlit("0");
        reveal_strlit("1");
        reveal_strlit("2");
        reveal_strlit("3");
        reveal_strlit("4");
        reveal_strlit("5");
        reveal_strlit("6");
        reveal_strlit("7");
        reveal_strlit("8");
        reveal_strlit("9");
        reveal_strlit("A");
        reveal_strlit("B");
        reveal_strlit("C");
        reveal_strlit("D");
        reveal_strlit("E");
        reveal_strlit("F");
    }
    match d {
        0 => "0",
        1 => "1",
        2 => "2",
        3 => "3",
        4 => "4",
        5 => "5",
        6 => "6",
        7 => "7",
        8 => "8",
        9 => "9",
        10 => "A",
        11 => "B",
        12 => "C",
        13 => "D",
        14 => "E",
        _ => "F",
    }
}

/// Appends `n` in decimal.
pub fn push_decimal(out: &mut String, n: u64)
    ensures
        final(out)@ == old(out)@ + decimal(n as nat),
    decreases n,
{
    if n >= 10 {
        push_decimal(out, n / 10);
    }
    out.append(digit_text(n % 10));
}

/// Appends the last `width` digits of `n` in base sixteen.
fn push_hex(out: &mut String, n: u64, width: usize)
    ensures
        final(out)@ == old(out)@ + hex_digits(n as nat, width as nat),
    decreases width,
{
    if width > 0 {
        push_hex(out, n / 16, width - 1);
        out.append(digit_text(n % 16));
    }
}

/// A digest as it is recorded: sixteen upper-case digits in base sixteen.
pub fn hex16(n: u64) -> (s: String)
    ensures
        s@ == hex_digits(n as nat, 16),
{
    let mut out = String::new();
    push_hex(&mut out, n, 16);
    out
}

/// The nearest whole number to `num / den`, ties to even.
fn round_half_even(num: u128, den: u128) -> (r: u128)
    requires
        0 < den <= 0x1_0000_0000,
    ensures
        r == half_even(num as nat, den as nat),
        r <= num / den + 1,
{
    let floor: u128 = num / den;
    let rest: u128 = num % den;
    if 2 * rest < den || (2 * rest == den && floor % 2 == 0) {
        floor
    } else {
        proof {
            assert(den >= 2);
            assert(num / den < u128::MAX) by (nonlinear_arith)
                requires
                    den >= 2,
            ;
        }
        floor + 1
    }
}

/// The value of `n` as an `f64`.
fn nearest_double(n: u64) -> (r: u128)
    ensures
        r == as_double(n as nat),
        r <= n + 4096,
{
    let wide: u128 = n as u128;
    let limit: u128 = DOUBLE_LIMIT as u128;
    let mut unit: u128 = 1;
    while wide >= limit * unit
        invariant
            wide == n,
            limit == DOUBLE_LIMIT,
            1 <= unit <= 4096,
            as_double(n as nat) == significant(n as nat, unit as nat),
        decreases 8192 - unit,
    {
        assert(wide < limit * 2048);
        unit = 2 * unit;
    }
    let rounded: u128 = round_half_even(wide, unit);
    assert(rounded * unit <= wide + unit) by (nonlinear_arith)
        requires
            rounded <= wide / unit + 1,
            0 < unit,
    ;
    rounded * unit
}

/// `n / scale` with one digit after the point, followed by `unit`.
pub fn scaled_text(n: u64, scale: u64, unit: &str) -> (s: String)
    requires
        KB <= scale <= GB,
    ensures
        s@ == scaled(n as nat, scale as nat, unit@),
{
    let double: u128 = nearest_double(n);
    let tenths: u128 = round_half_even(10 * double, scale as u128);
    assert(tenths <= u64::MAX) by (nonlinear_arith)
        requires
            tenths <= (10 * double) / scale as int + 1,
            double <= u64::MAX + 4096,
            scale >= 1024,
    ;
    let tenths: u64 = tenths as u64;
    let mut out = String::new();
    push_decimal(&mut out, tenths / 10);
    proof {
        reveal_strlit(".");
    }
    out.append(".");
    out.append(digit_text(tenths % 10));
    out.append(unit);
    out
}

/// `n` bytes for a reader: one digit after the point, in the largest of bytes, kilobytes,
/// megabytes and gigabytes that `n` reaches.
pub fn format_size(n: u64) -> (s: String)
    ensures
        s@ == size_text(n as nat),
        n >= 1_073_741_824 ==> s@ == scaled(n as nat, 1_073_741_824, " GB"@),
        1_048_576 <= n < 1_073_741_824 ==> s@ == scaled(n as nat, 1_048_576, " MB"@),
        1024 <= n < 1_048_576 ==> s@ == scaled(n as nat, 1024, " KB"@),
        n < 1024 ==> s@ == decimal(n as nat) + " B"@,
{
    if n >= GB {
        scaled_text(n, GB, " GB")
    } else if n >= MB {
        scaled_text(n, MB, " MB")
    } else if n >= KB {
        scaled_text(n, KB, " KB")
    } else {
        let mut out = String::new();
        push_decimal(&mut out, n);
        out.append(" B");
        out
    }
}

/// A text of `width` digits has `width` characters.
pub proof fn lemma_hex_digits_len(n: nat, width: nat)
    ensures
        hex_digits(n, width).len() == width,
    decreases width,
{
    if width > 0 {
        lemma_hex_digits_len(n / 16, (width - 1) as nat);
    }
}

/// Numbers below `16^width` with the same `width` digits are equal.
pub proof fn lemma_hex_digits_injective(a: nat, b: nat, width: nat)
    requires
        hex_digits(a, width) == hex_digits(b, width),
        a < pow(16, width),
        b < pow(16, width),
    ensures
        a == b,
    decreases width,
{
    if width == 0 {
        lemma_pow0(16);
    } else {
        let less = (width - 1) as nat;
        assert(hex_digits(a, width).drop_last() =~= hex_digits(a / 16, less));
        assert(hex_digits(b, width).drop_last() =~= hex_digits(b / 16, less));
        assert(hex_digits(a, width).last() == digit_char(a % 16));
        assert(hex_digits(b, width).last() == digit_char(b % 16));
        lemma_pow1(16);
        lemma_pow_adds(16, 1, less);
        lemma_hex_digits_injective(a / 16, b / 16, less);
    }
}

/// Recorded digests are equal exactly when the digests are: comparing the texts is
/// comparing the hashes. A recorded digest is never the empty text, which stands for a hash
/// that is not known.
pub proof fn lemma_hex16_faithful(a: u64, b: u64)
    ensures
        hex_digits(a as nat, 16) == hex_digits(b as nat, 16) <==> a == b,
        hex_digits(a as nat, 16).len() == 16,
{
    lemma_hex_digits_len(a as nat, 16);
    if hex_digits(a as nat, 16) == hex_digits(b as nat, 16) {
        assert(pow(16, 16) == 0x1_0000_0000_0000_0000) by {
            reveal(pow);
            reveal_with_fuel(pow, 17);
        }
        lemma_hex_digits_injective(a as nat, b as nat, 16);
    }
}

/// The number that a digit stands for.
pub open spec fn digit_value(c: char) -> nat {
    if '0' <= c <= '9' {
        (c as nat - '0' as nat) as nat
    } else {
        (c as nat - 'A' as nat + 10) as nat
    }
}

/// The number that a text of digits stands for.
pub open spec fn number(text: Seq<char>, base: nat) -> nat
    decreases text.len(),
{
    if text.len() == 0 {
        0
    } else {
        number(text.drop_last(), base) * base + digit_value(text.last())
    }
}

proof fn lemma_digit_char(d: nat)
    requires
        d < 16,
    ensures
        digit_value(digit_char(d)) == d,
        d < 10 ==> '0' <= digit_char(d) <= '9',
        d >= 10 ==> 'A' <= digit_char(d) <= 'F',
{
}

/// A number in decimal is written with the digits from zero to nine, has no zero in front, and
/// read again is the number.
pub proof fn lemma_decimal_is_the_number(n: nat)
    ensures
        number(decimal(n), 10) == n,
        decimal(n).len() > 0,
        decimal(n).len() > 1 ==> decimal(n)[0] != '0',
        forall|i: int| 0 <= i < decimal(n).len() ==> '0' <= #[trigger] decimal(n)[i] <= '9',
    decreases n,
{
    lemma_digit_char(n % 10);
    if n < 10 {
        lemma_digit_char(n);
        assert(decimal(n).drop_last() =~= Seq::empty());
        assert(number(decimal(n).drop_last(), 10) == 0);
    } else {
        let front = decimal(n / 10);
        lemma_decimal_is_the_number(n / 10);
        assert(decimal(n).drop_last() =~= front);
        assert(front[0] == decimal(n)[0]);
        if front.len() == 1 {
            assert(front.drop_last() =~= Seq::empty());
            assert(number(front.drop_last(), 10) == 0);
            assert(digit_value(front[0]) == n / 10);
        }
        assert forall|i: int| 0 <= i < decimal(n).len() implies '0' <= #[trigger] decimal(n)[i]
            <= '9' by {
            if i < front.len() {
                assert(front[i] == decimal(n)[i]);
            }
        }
    }
}

/// A digest as it is recorded is written with the digits from zero to F, and read again is the
/// digest.
pub proof fn lemma_hex16_is_the_number(n: u64)
    ensures
        number(hex_digits(n as nat, 16), 16) == n,
        hex_digits(n as nat, 16).len() == 16,
        forall|i: int|
            0 <= i < 16 ==> '0' <= #[trigger] hex_digits(n as nat, 16)[i] <= '9' || 'A'
                <= hex_digits(n as nat, 16)[i] <= 'F',
{
    lemma_hex_digits_len(n as nat, 16);
    assert(pow(16, 16) == 0x1_0000_0000_0000_0000) by {
        reveal(pow);
        reveal_with_fuel(pow, 17);
    }
    lemma_hex_digits_number(n as nat, 16);
}

proof fn lemma_hex_digits_number(n: nat, width: nat)
    requires
        n < pow(16, width),
    ensures
        number(hex_digits(n, width), 16) == n,
        forall|i: int|
            0 <= i < hex_digits(n, width).len() ==> '0' <= #[trigger] hex_digits(n, width)[i]
                <= '9' || 'A' <= hex_digits(n, width)[i] <= 'F',
    decreases width,
{
    if width == 0 {
        lemma_pow0(16);
    } else {
        let less = (width - 1) as nat;
        lemma_pow1(16);
        lemma_pow_adds(16, 1, less);
        lemma_hex_digits_number(n / 16, less);
        lemma_digit_char(n % 16);
        let front = hex_digits(n / 16, less);
        assert(hex_digits(n, width).drop_last() =~= front);
        assert forall|i: int| 0 <= i < hex_digits(n, width).len() implies '0'
            <= #[trigger] hex_digits(n, width)[i] <= '9' || 'A' <= hex_digits(n, width)[i]
            <= 'F' by {
            if i < front.len() {
                assert(front[i] == hex_digits(n, width)[i]);
            }
        }
    }
}

/// Rounding gives a whole number than which none is nearer, and the even one of two that are
/// equally near.
pub proof fn lemma_half_even_is_nearest(num: nat, den: nat)
    requires
        den > 0,
    ensures
        2 * (half_even(num, den) * den - num) <= den,
        2 * (num - half_even(num, den) * den) <= den,
        2 * (half_even(num, den) * den - num) == den || 2 * (num - half_even(num, den) * den)
            == den ==> half_even(num, den) % 2 == 0,
{
    let floor = num / den;
    let rest = num % den;
    assert(floor * den + rest == num && (floor + 1) * den == floor * den + den) by (nonlinear_arith)
        requires
            den > 0,
            floor == num / den,
            rest == num % den,
    ;
    assert(rest < den) by (nonlinear_arith)
        requires
            den > 0,
            rest == num % den,
    ;
}

/// A byte count of fewer than 2^53 bytes is shown as it is below a kilobyte, and else in the
/// largest unit that it reaches: tenths of that unit than which no number of tenths is nearer.
pub proof fn lemma_size_text_is_nearest(n: nat, scale: nat, unit: Seq<char>)
    requires
        n < 0x20_0000_0000_0000,
        n >= 0x4000_0000 && scale == 0x4000_0000 && unit == " GB"@ || 0x10_0000 <= n < 0x4000_0000
            && scale == 0x10_0000 && unit == " MB"@ || 0x400 <= n < 0x10_0000 && scale == 0x400
            && unit == " KB"@,
    ensures
        exists|tenths: nat|
            {
                &&& 2 * (tenths * scale - 10 * n) <= scale
                &&& 2 * (10 * n - tenths * scale) <= scale
                &&& size_text(n) == #[trigger] decimal(tenths / 10) + "."@ + decimal(tenths % 10)
                    + unit
            },
{
    let tenths = half_even(10 * n, scale);
    reveal_strlit(".");
    assert("."@ =~= seq!['.']);
    assert(half_even(n, 1) == n);
    assert(as_double(n) == n);
    lemma_half_even_is_nearest(10 * n, scale);
    assert(decimal(tenths % 10) == seq![digit_char(tenths % 10)]);
    assert(size_text(n) == decimal(tenths / 10) + "."@ + decimal(tenths % 10) + unit);
}

/// A byte count below a kilobyte is shown as it is.
pub proof fn lemma_small_sizes_are_exact(n: nat)
    requires
        n < 1024,
    ensures
        size_text(n) == decimal(n) + " B"@,
{
}

proof fn lemma_significant_is_near(n: nat, unit: nat)
    requires
        unit > 0,
        unit == 1 || 2 * n >= DOUBLE_LIMIT * unit,
    ensures
        (significant(n, unit) - n) * DOUBLE_LIMIT <= n,
        (n - significant(n, unit)) * DOUBLE_LIMIT <= n,
    decreases n - unit,
{
    if n < DOUBLE_LIMIT * unit {
        let m = half_even(n, unit) * unit;
        lemma_half_even_is_nearest(n, unit);
        if unit == 1 {
            assert(half_even(n, 1) == n);
            assert(m == n);
        } else {
            assert((m - n) * DOUBLE_LIMIT <= n && (n - m) * DOUBLE_LIMIT <= n) by (nonlinear_arith)
                requires
                    2 * (m - n) <= unit,
                    2 * (n - m) <= unit,
                    2 * n >= DOUBLE_LIMIT * unit,
                    DOUBLE_LIMIT > 0,
            ;
        }
    } else {
        lemma_significant_is_near(n, 2 * unit);
    }
}

/// The value of a whole number as an `f64` is the number itself below 2^53, and off by no more
/// than one part in 2^53 beyond.
pub proof fn lemma_as_double_is_near(n: nat)
    ensures
        n < 0x20_0000_0000_0000 ==> as_double(n) == n,
        (as_double(n) - n) * 0x20_0000_0000_0000 <= n,
        (n - as_double(n)) * 0x20_0000_0000_0000 <= n,
{
    assert(half_even(n, 1) == n);
    lemma_significant_is_near(n, 1);
}

/// A number in a unit is shown in tenths of the unit than which no number of tenths is nearer to
/// its value as an `f64`.
pub proof fn lemma_scaled_is_nearest(n: nat, scale: nat, unit: Seq<char>)
    requires
        scale > 0,
    ensures
        exists|tenths: nat|
            {
                &&& 2 * (tenths * scale - 10 * as_double(n)) <= scale
                &&& 2 * (10 * as_double(n) - tenths * scale) <= scale
                &&& scaled(n, scale, unit) == #[trigger] decimal(tenths / 10) + "."@ + decimal(
                    tenths % 10,
                ) + unit
            },
{
    let tenths = half_even(10 * as_double(n), scale);
    reveal_strlit(".");
    assert("."@ =~= seq!['.']);
    lemma_half_even_is_nearest(10 * as_double(n), scale);
    assert(decimal(tenths % 10) == seq![digit_char(tenths % 10)]);
    assert(scaled(n, scale, unit) == decimal(tenths / 10) + "."@ + decimal(tenths % 10) + unit);
}

} // verus!

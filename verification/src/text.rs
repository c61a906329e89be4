//! Decimal text of numbers, built from characters and proved digit by digit.

use vstd::prelude::*;

verus! {

/// The character of a decimal digit.
pub open spec fn digit_char(d: int) -> char {
    if d == 0 { '0' }
    else if d == 1 { '1' }
    else if d == 2 { '2' }
    else if d == 3 { '3' }
    else if d == 4 { '4' }
    else if d == 5 { '5' }
    else if d == 6 { '6' }
    else if d == 7 { '7' }
    else if d == 8 { '8' }
    else { '9' }
}

/// The decimal text of `n`, without leading zeros.
pub open spec fn decimal(n: nat) -> Seq<char>
    decreases n,
{
    if n < 10 {
        seq![digit_char(n as int)]
    } else {
        decimal(n / 10).push(digit_char((n % 10) as int))
    }
}

/// The decimal text of `n`, with leading zeros up to `width` characters.
pub open spec fn zero_padded(n: nat, width: nat) -> Seq<char> {
    let d = decimal(n);
    if d.len() >= width {
        d
    } else {
        Seq::new((width - d.len()) as nat, |i: int| '0') + d
    }
}

/// The decimal text of a signed number, with a minus sign when negative.
pub open spec fn signed_decimal(v: int) -> Seq<char> {
    if v < 0 {
        seq!['-'] + decimal((-v) as nat)
    } else {
        decimal(v as nat)
    }
}

/// The one-character text of a digit.
fn digit_str(d: u64) -> (r: &'static str)
    requires
        d < 10,
    ensures
        r@ == seq![digit_char(d as int)],
{
    proof {
        reveal_strlit("0");
        reveal_strlit("1");
        reveal_strlit("2");
        reveal_strlit("3");
        reveal_strlit("4");
        reveal_strlit("5");
        reveal_strlit("6");
        reveal_strlit("7");
        reveal_strlit("8");
        reveal_strlit("9");
    }
    if d == 0 { "0" }
    else if d == 1 { "1" }
    else if d == 2 { "2" }
    else if d == 3 { "3" }
    else if d == 4 { "4" }
    else if d == 5 { "5" }
    else if d == 6 { "6" }
    else if d == 7 { "7" }
    else if d == 8 { "8" }
    else { "9" }
}

/// Appends the decimal text of `n`.
pub fn push_decimal(s: &mut String, n: u64)
    ensures
        final(s)@ == old(s)@ + decimal(n as nat),
    decreases n,
{
    if n < 10 {
        s.append(digit_str(n));
    } else {
        push_decimal(s, n / 10);
        s.append(digit_str(n % 10));
        assert(decimal(n as nat) == decimal((n / 10) as nat).push(digit_char((n % 10) as int)));
    }
}

/// Appends the decimal text of a signed number.
pub fn push_signed_decimal(s: &mut String, v: i64)
    ensures
        final(s)@ == old(s)@ + signed_decimal(v as int),
{
    if v < 0 {
        proof {
            reveal_strlit("-");
        }
        s.append("-");
        let magnitude: u64 = if v == i64::MIN { 9223372036854775808u64 } else { (-v) as u64 };
        push_decimal(s, magnitude);
    } else {
        push_decimal(s, v as u64);
    }
}

/// The decimal text of `n` has at least one character.
pub proof fn lemma_decimal_nonempty(n: nat)
    ensures
        decimal(n).len() >= 1,
    decreases n,
{
    if n >= 10 {
        lemma_decimal_nonempty(n / 10);
    }
}

/// The decimal text of `n`, with leading zeros up to `width` characters.
pub fn zero_padded_string(n: u64, width: usize) -> (s: String)
    ensures
        s@ == zero_padded(n as nat, width as nat),
{
    let mut digits = String::new();
    push_decimal(&mut digits, n);
    let count = digits.as_str().unicode_len();
    let mut out = String::new();
    if count < width {
        let mut k: usize = 0;
        while k < width - count
            invariant
                k <= width - count,
                out@ == Seq::new(k as nat, |i: int| '0'),
            decreases width - count - k,
        {
            proof {
                reveal_strlit("0");
            }
            out.append("0");
            assert(out@ =~= Seq::new((k + 1) as nat, |i: int| '0'));
            k += 1;
        }
    }
    out.append(digits.as_str());
    assert(out@ =~= zero_padded(n as nat, width as nat));
    out
}


/// The decimal text of `n` with a comma between groups of three digits,
/// such as `1,234,567`.
pub open spec fn with_commas(n: nat) -> Seq<char>
    decreases n,
{
    if n < 1000 {
        decimal(n)
    } else {
        with_commas(n / 1000) + seq![','] + zero_padded(n % 1000, 3)
    }
}

fn push_with_commas(s: &mut String, n: u64)
    ensures
        final(s)@ == old(s)@ + with_commas(n as nat),
    decreases n,
{
    if n < 1000 {
        push_decimal(s, n);
    } else {
        push_with_commas(s, n / 1000);
        proof {
            reveal_strlit(",");
        }
        s.append(",");
        let group = zero_padded_string(n % 1000, 3);
        s.append(group.as_str());
        assert(with_commas(n as nat) == with_commas((n / 1000) as nat) + seq![','] + zero_padded((n % 1000) as nat, 3));
    }
}

/// The character of a hexadecimal digit, in lower case.
pub open spec fn hex_char(d: int) -> char {
    if d < 10 { digit_char(d) }
    else if d == 10 { 'a' }
    else if d == 11 { 'b' }
    else if d == 12 { 'c' }
    else if d == 13 { 'd' }
    else if d == 14 { 'e' }
    else { 'f' }
}

/// The six hexadecimal digits of a packed RGB value, most significant
/// first.
pub open spec fn hex6(v: int) -> Seq<char> {
    seq![
        hex_char((v / 0x100000) % 16),
        hex_char((v / 0x10000) % 16),
        hex_char((v / 0x1000) % 16),
        hex_char((v / 0x100) % 16),
        hex_char((v / 0x10) % 16),
        hex_char(v % 16),
    ]
}

/// The one-character text of a hexadecimal digit.
fn hex_str(d: u32) -> (r: &'static str)
    requires
        d < 16,
    ensures
        r@ == seq![hex_char(d as int)],
{
    proof {
        reveal_strlit("a");
        reveal_strlit("b");
        reveal_strlit("c");
        reveal_strlit("d");
        reveal_strlit("e");
        reveal_strlit("f");
    }
    if d < 10 { digit_str(d as u64) }
    else if d == 10 { "a" }
    else if d == 11 { "b" }
    else if d == 12 { "c" }
    else if d == 13 { "d" }
    else if d == 14 { "e" }
    else { "f" }
}

/// Appends `#` and the six hexadecimal digits of a packed RGB value.
pub fn push_hex_color(s: &mut String, v: u32)
    requires
        v < 0x1000000,
    ensures
        final(s)@ == old(s)@ + seq!['#'] + hex6(v as int),
{
    proof {
        reveal_strlit("#");
    }
    let ghost s0 = s@;
    s.append("#");
    s.append(hex_str((v / 0x100000) % 16));
    s.append(hex_str((v / 0x10000) % 16));
    s.append(hex_str((v / 0x1000) % 16));
    s.append(hex_str((v / 0x100) % 16));
    s.append(hex_str((v / 0x10) % 16));
    s.append(hex_str(v % 16));
    assert(s@ =~= s0 + seq!['#'] + hex6(v as int));
}

/// A number with its digits grouped by threes.
pub fn format_number_with_commas(num: u64) -> (s: String)
    ensures
        s@ == with_commas(num as nat),
{
    let mut s = String::new();
    push_with_commas(&mut s, num);
    assert(s@ =~= with_commas(num as nat));
    s
}

} // verus!

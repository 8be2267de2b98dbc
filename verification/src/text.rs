//! Numbers as text.

use vstd::prelude::*;

verus! {

/// The digit of a value below sixteen, letters in upper case.
pub open spec fn digit(v: int) -> char {
    if v == 0 {
        '0'
    } else if v == 1 {
        '1'
    } else if v == 2 {
        '2'
    } else if v == 3 {
        '3'
    } else if v == 4 {
        '4'
    } else if v == 5 {
        '5'
    } else if v == 6 {
        '6'
    } else if v == 7 {
        '7'
    } else if v == 8 {
        '8'
    } else if v == 9 {
        '9'
    } else if v == 10 {
        'A'
    } else if v == 11 {
        'B'
    } else if v == 12 {
        'C'
    } else if v == 13 {
        'D'
    } else if v == 14 {
        'E'
    } else {
        'F'
    }
}

/// The last `n` digits of a number to the base sixteen.
pub open spec fn hex_digits(v: int, n: nat) -> Seq<char>
    decreases n,
{
    if n == 0 {
        Seq::empty()
    } else {
        hex_digits(v / 16, (n - 1) as nat).push(digit(v % 16))
    }
}

/// The digits of a number to the base ten, without leading zeros.
pub open spec fn decimal(v: nat) -> Seq<char>
    decreases v,
{
    if v < 10 {
        seq![digit(v as int)]
    } else {
        decimal(v / 10).push(digit((v % 10) as int))
    }
}

fn digit_text(v: u32) -> (s: &'static str)
    requires
        v < 16,
    ensures
        s@ == seq![digit(v as int)],
{
    proof {
        reveal_strlit("0");
        reveal_strlit("1");
        reveal_strlit("2");
        reveal_strlit("3");
        reveal_strlit("4");
        reveal_strlit("5");
        reveal_strlit("6");
        reveal_strlit("7");
        reveal_strlit("8");
        reveal_strlit("9");
        reveal_strlit("A");
        reveal_strlit("B");
        reveal_strlit("C");
        reveal_strlit("D");
        reveal_strlit("E");
        reveal_strlit("F");
    }
    let s: &'static str = if v == 0 {
        "0"
    } else if v == 1 {
        "1"
    } else if v == 2 {
        "2"
    } else if v == 3 {
        "3"
    } else if v == 4 {
        "4"
    } else if v == 5 {
        "5"
    } else if v == 6 {
        "6"
    } else if v == 7 {
        "7"
    } else if v == 8 {
        "8"
    } else if v == 9 {
        "9"
    } else if v == 10 {
        "A"
    } else if v == 11 {
        "B"
    } else if v == 12 {
        "C"
    } else if v == 13 {
        "D"
    } else if v == 14 {
        "E"
    } else {
        "F"
    };
    assert(s@ =~= seq![digit(v as int)]);
    s
}

/// A text with eight digits to the base sixteen added.
pub fn push_hex8(text: String, v: u32) -> (s: String)
    ensures
        s@ == text@ + hex_digits(v as int, 8),
{
    push_hex(text, v, 8)
}

fn push_hex(text: String, v: u32, n: u32) -> (s: String)
    ensures
        s@ == text@ + hex_digits(v as int, n as nat),
    decreases n,
{
    if n == 0 {
        assert(text@ + hex_digits(v as int, 0) =~= text@);
        text
    } else {
        let head = push_hex(text, v / 16, n - 1);
        let s = head.concat(digit_text(v % 16));
        assert(s@ =~= text@ + hex_digits(v as int, n as nat));
        s
    }
}

/// A text with a number to the base ten added.
pub fn push_decimal(text: String, v: u32) -> (s: String)
    ensures
        s@ == text@ + decimal(v as nat),
    decreases v,
{
    if v < 10 {
        let s = text.concat(digit_text(v));
        assert(s@ =~= text@ + decimal(v as nat));
        s
    } else {
        let head = push_decimal(text, v / 10);
        let s = head.concat(digit_text(v % 10));
        assert(s@ =~= text@ + decimal(v as nat));
        s
    }
}

/// The value of a digit, of upper case letters too.
pub open spec fn digit_value(c: char) -> int {
    if '0' <= c && c <= '9' {
        c as int - '0' as int
    } else {
        c as int - 'A' as int + 10
    }
}

/// The number that a sequence of digits stands for.
pub open spec fn value_of(s: Seq<char>, base: int) -> int
    decreases s.len(),
{
    if s.len() == 0 {
        0
    } else {
        value_of(s.drop_last(), base) * base + digit_value(s.last())
    }
}

/// Law: a digit has the value for which it stands, and is a decimal one or one of the first
/// six letters in upper case.
pub proof fn digits_have_their_values(v: int)
    requires
        0 <= v < 16,
    ensures
        digit_value(digit(v)) == v,
        v < 10 ==> '0' <= digit(v) && digit(v) <= '9',
        v >= 10 ==> 'A' <= digit(v) && digit(v) <= 'F',
{
}

/// Law: the digits of a number read as the number again, and begin with a zero only if it is
/// zero.
pub proof fn decimals_read_as_their_numbers(v: nat)
    ensures
        value_of(decimal(v), 10) == v,
        decimal(v).len() > 0,
        decimal(v)[0] == '0' ==> v == 0,
        v == 0 ==> decimal(v) == seq!['0'],
    decreases v,
{
    if v < 10 {
        digits_have_their_values(v as int);
        let s = decimal(v);
        assert(s.drop_last() =~= Seq::<char>::empty());
        assert(value_of(s.drop_last(), 10) == 0);
        assert(s.last() == digit(v as int));
    } else {
        decimals_read_as_their_numbers(v / 10);
        digits_have_their_values((v % 10) as int);
        let s = decimal(v);
        assert(s.drop_last() =~= decimal(v / 10));
        assert(s.last() == digit((v % 10) as int));
        assert(s[0] == decimal(v / 10)[0]);
        assert(v == (v / 10) * 10 + v % 10);
    }
}

/// Law: of a number to the base sixteen as many digits are written as were asked for; where
/// they suffice they read as the number again.
pub proof fn hex_digits_read_as_their_numbers(v: int, n: nat)
    requires
        0 <= v,
    ensures
        hex_digits(v, n).len() == n,
        v < vstd::arithmetic::power::pow(16, n) ==> value_of(hex_digits(v, n), 16) == v,
    decreases n,
{
    if n > 0 {
        let m = (n - 1) as nat;
        hex_digits_read_as_their_numbers(v / 16, m);
        digits_have_their_values(v % 16);
        let s = hex_digits(v, n);
        assert(s.drop_last() =~= hex_digits(v / 16, m));
        assert(s.last() == digit(v % 16));
        assert(vstd::arithmetic::power::pow(16, n) == 16 * vstd::arithmetic::power::pow(16, m)) by {
            reveal(vstd::arithmetic::power::pow);
        }
        assert(v == (v / 16) * 16 + v % 16);
        if v < vstd::arithmetic::power::pow(16, n) {
            assert(v / 16 < vstd::arithmetic::power::pow(16, m));
        }
    } else {
        reveal(vstd::arithmetic::power::pow);
    }
}

} // verus!

//! Building text from characters and numbers.

use vstd::prelude::*;

verus! {

/// `String::push` puts a character behind those that are there.
pub assume_specification[ String::push ](text: &mut String, c: char)
    ensures
        final(text)@ == old(text)@.push(c),
;

/// The decimal digit for a number below ten.
pub open spec fn digit(d: nat) -> char {
    (d + 48) as char
}

/// The hexadecimal digit for a number below sixteen, in upper case.
pub open spec fn hex_digit(d: nat) -> char {
    if d < 10 {
        (d + 48) as char
    } else {
        (d + 55) as char
    }
}

/// A number in decimal notation, without leading zeros.
pub open spec fn decimal(n: nat) -> Seq<char>
    decreases n,
{
    if n < 10 {
        seq![digit(n)]
    } else {
        decimal(n / 10).push(digit(n % 10))
    }
}

/// A signed number in decimal notation.
pub open spec fn signed_decimal(n: int) -> Seq<char> {
    if n < 0 {
        seq!['-'] + decimal((-n) as nat)
    } else {
        decimal(n as nat)
    }
}

/// A byte in hexadecimal notation, with two digits.
pub open spec fn hex_byte(n: u8) -> Seq<char> {
    seq![hex_digit((n / 16) as nat), hex_digit((n % 16) as nat)]
}

fn digit_of(d: u8) -> (r: char)
    requires
        d < 10,
    ensures
        r == digit(d as nat),
{
    (48 + d) as char
}

fn hex_digit_of(d: u8) -> (r: char)
    requires
        d < 16,
    ensures
        r == hex_digit(d as nat),
{
    if d < 10 {
        (48 + d) as char
    } else {
        (55 + d) as char
    }
}

/// Appends a number in decimal notation.
pub fn push_decimal(text: &mut String, n: u128)
    ensures
        final(text)@ == old(text)@ + decimal(n as nat),
    decreases n,
{
    if n < 10 {
        text.push(digit_of(n as u8));
        assert(text@ =~= old(text)@ + decimal(n as nat));
    } else {
        push_decimal(text, n / 10);
        text.push(digit_of((n % 10) as u8));
        assert(text@ =~= old(text)@ + decimal(n as nat));
    }
}

/// A signed number in decimal notation.
pub fn decimal_text(n: i32) -> (r: String)
    ensures
        r@ == signed_decimal(n as int),
{
    let mut text: String = String::new();
    if n < 0 {
        text.push('-');
        push_decimal(&mut text, (-(n as i64)) as u128);
        assert(text@ =~= signed_decimal(n as int));
    } else {
        push_decimal(&mut text, n as u128);
        assert(text@ =~= signed_decimal(n as int));
    }
    text
}

/// Appends a byte in hexadecimal notation, with two digits.
pub fn push_hex_byte(text: &mut String, n: u8)
    ensures
        final(text)@ == old(text)@ + hex_byte(n),
{
    text.push(hex_digit_of(n / 16));
    text.push(hex_digit_of(n % 16));
    assert(text@ =~= old(text)@ + hex_byte(n));
}

/// Whether `text` holds the character `c`.
pub fn holds_char(text: &str, c: char) -> (r: bool)
    ensures
        r == text@.contains(c),
{
    for x in it: text.chars()
        invariant
            it.seq() == text@,
            forall|i: int| 0 <= i < it.index() ==> text@[i] != c,
    {
        if x == c {
            assert(text@[it.index() as int] == c);
            return true;
        }
    }
    false
}

/// The number that a decimal digit stands for.
pub open spec fn digit_value(c: char) -> int {
    c as int - 48
}

/// The number that decimal digits stand for.
pub open spec fn numeral(digits: Seq<char>) -> int
    decreases digits.len(),
{
    if digits.len() == 0 {
        0
    } else {
        10 * numeral(digits.drop_last()) + digit_value(digits.last())
    }
}

/// The number that a decimal notation with or without a sign stands for.
pub open spec fn signed_numeral(text: Seq<char>) -> int {
    if text.len() > 0 && text[0] == '-' {
        -numeral(text.drop_first())
    } else {
        numeral(text)
    }
}

/// A decimal notation is made of digits, stands for its number and has no zero
/// in front but where the number is zero.
pub proof fn lemma_decimal_reads_back(n: nat)
    ensures
        numeral(decimal(n)) == n,
        decimal(n).len() > 0,
        n > 0 ==> decimal(n)[0] != '0',
        n < 10 ==> decimal(n).len() == 1,
        forall|i: int| 0 <= i < decimal(n).len() ==> '0' <= (#[trigger] decimal(n)[i]) <= '9',
    decreases n,
{
    reveal_with_fuel(numeral, 3);
    if n < 10 {
        assert(decimal(n).drop_last() =~= seq![]);
        assert(decimal(n)[0] == digit(n));
    } else {
        lemma_decimal_reads_back(n / 10);
        let front = decimal(n / 10);
        assert(decimal(n) =~= front.push(digit(n % 10)));
        assert(decimal(n).drop_last() =~= front);
        assert(decimal(n)[0] == front[0]);
        assert forall|i: int| 0 <= i < decimal(n).len() implies '0' <= (#[trigger] decimal(n)[i])
            <= '9' by {
            if i < front.len() {
                assert(decimal(n)[i] == front[i]);
            }
        }
    }
}

/// A signed decimal notation stands for its number.
pub proof fn lemma_signed_decimal_reads_back(n: int)
    ensures
        signed_numeral(signed_decimal(n)) == n,
        signed_decimal(n).len() > 0,
{
    if n < 0 {
        lemma_decimal_reads_back((-n) as nat);
        assert(signed_decimal(n).drop_first() =~= decimal((-n) as nat));
    } else {
        lemma_decimal_reads_back(n as nat);
        assert('0' <= decimal(n as nat)[0] <= '9');
    }
}

/// The number that a hexadecimal digit stands for.
pub open spec fn hex_value(c: char) -> int {
    if '0' <= c <= '9' {
        c as int - 48
    } else {
        c as int - 55
    }
}

/// The byte that two hexadecimal digits stand for.
pub open spec fn byte_at(text: Seq<char>, i: int) -> int {
    16 * hex_value(text[i]) + hex_value(text[i + 1])
}

/// A byte in hexadecimal notation has two digits, in upper case, and stands for
/// the byte.
pub proof fn lemma_hex_reads_back(n: u8)
    ensures
        hex_byte(n).len() == 2,
        byte_at(hex_byte(n), 0) == n,
        forall|i: int|
            0 <= i < 2 ==> '0' <= (#[trigger] hex_byte(n)[i]) <= '9' || 'A' <= hex_byte(n)[i]
                <= 'F',
{
}

} // verus!

//! Building text: characters from code points, and hexadecimal numerals.
use crate::decode;
use vstd::prelude::*;
use vstd::string::*;

verus! {

/// `String::push`: one character goes on the end.
pub assume_specification[ std::string::String::push ](s: &mut std::string::String, ch: char)
    ensures
        final(s)@ == old(s)@.push(ch),
;

/// `char::from_u32`: the character of a scalar value, and nothing for any other number.
pub assume_specification[ char::from_u32 ](i: u32) -> (r: Option<char>)
    ensures
        r is Some <==> decode::is_scalar_value(i as nat),
        r is Some ==> r->0 == i as char,
;

/// The character of a byte, each byte being one Latin-1 character.
pub open spec fn latin1_char(byte: u8) -> char {
    byte as char
}

/// The characters of bytes, one each.
pub open spec fn latin1_chars(s: Seq<u8>) -> Seq<char> {
    s.map_values(|b: u8| latin1_char(b))
}

/// A lowercase hexadecimal digit.
pub open spec fn digit_char(d: nat) -> char {
    if d < 10 {
        (0x30 + d) as char
    } else {
        (0x57 + d) as char
    }
}

/// The lowercase hexadecimal numeral of a number, without leading zeros.
pub open spec fn numeral(v: nat) -> Seq<char>
    decreases v,
{
    if v < 16 {
        seq![digit_char(v)]
    } else {
        numeral(v / 16).push(digit_char(v % 16))
    }
}

/// A numeral brought to at least `width` digits by leading zeros.
pub open spec fn zero_padded(digits: Seq<char>, width: nat) -> Seq<char> {
    if digits.len() >= width {
        digits
    } else {
        Seq::new((width - digits.len()) as nat, |i: int| '0') + digits
    }
}

/// The number of a hexadecimal digit.
pub open spec fn digit_value(c: char) -> nat {
    if c as nat >= 0x57 {
        (c as nat - 0x57) as nat
    } else {
        (c as nat - 0x30) as nat
    }
}

/// The number that digits spell.
pub open spec fn numeral_value(digits: Seq<char>) -> nat
    decreases digits.len(),
{
    if digits.len() == 0 {
        0
    } else {
        numeral_value(digits.drop_last()) * 16 + digit_value(digits.last())
    }
}

/// A character of a lowercase numeral.
pub open spec fn is_digit(c: char) -> bool {
    0x30 <= c as nat <= 0x39 || 0x61 <= c as nat <= 0x66
}

proof fn lemma_zeros(n: nat, digits: Seq<char>)
    ensures
        numeral_value(Seq::new(n, |i: int| '0') + digits) == numeral_value(digits),
    decreases digits.len(), n,
{
    let zeros = Seq::new(n, |i: int| '0');
    if digits.len() > 0 {
        lemma_zeros(n, digits.drop_last());
        assert((zeros + digits).drop_last() =~= zeros + digits.drop_last());
    } else if n > 0 {
        lemma_zeros((n - 1) as nat, digits);
        assert((zeros + digits).drop_last() =~= Seq::new((n - 1) as nat, |i: int| '0') + digits);
    } else {
        assert(zeros + digits =~= digits);
    }
}

proof fn lemma_numeral(v: nat)
    ensures
        numeral_value(numeral(v)) == v,
        numeral(v).len() >= 1,
        v < 0x100 ==> numeral(v).len() <= 2,
        forall|i: int| 0 <= i < numeral(v).len() ==> is_digit(#[trigger] numeral(v)[i]),
    decreases v,
{
    if v >= 16 {
        lemma_numeral(v / 16);
        assert(numeral(v).drop_last() =~= numeral(v / 16));
        if v < 0x100 {
            assert(numeral(v / 16).len() == 1);
        }
    } else {
        assert(numeral(v).drop_last() =~= seq![]);
        assert(numeral_value(numeral(v)) == numeral_value(Seq::<char>::empty()) * 16 + digit_value(digit_char(v)));
    }
}

/// A padded numeral spells its number, in digits alone.
pub proof fn lemma_padded_numeral(v: nat, width: nat)
    ensures
        numeral_value(zero_padded(numeral(v), width)) == v,
        zero_padded(numeral(v), width).len() >= width,
        v < 0x100 && width == 2 ==> zero_padded(numeral(v), width).len() == 2,
        forall|i: int|
            0 <= i < zero_padded(numeral(v), width).len() ==> is_digit(#[trigger] zero_padded(numeral(v), width)[i]),
{
    lemma_numeral(v);
    let digits = numeral(v);
    if digits.len() < width {
        lemma_zeros((width - digits.len()) as nat, digits);
        let padded = zero_padded(digits, width);
        assert forall|i: int| 0 <= i < padded.len() implies is_digit(#[trigger] padded[i]) by {
            if i >= width - digits.len() {
                assert(padded[i] == digits[i - (width - digits.len())]);
            }
        }
    }
}

/// A hexadecimal numeral spells its number digit by digit, the letters lowercase and the last digit that of the units;
/// it has no leading zeros, and padding puts zeros before it up to the width and no further.
pub proof fn law_numerals_spell_numbers(v: nat, width: nat)
    ensures
        ({
            let digits = numeral(v);
            let units = v % 16;
            &&& digits.len() >= 1
            &&& digits.last() as nat == if units < 10 { 0x30 + units } else { 0x57 + units }
            &&& v >= 16 ==> digits.drop_last() == numeral(v / 16)
            &&& v < 16 ==> digits.len() == 1
        }),
        ({
            let digits = numeral(v);
            let padded = zero_padded(digits, width);
            &&& padded.len() == if digits.len() < width { width } else { digits.len() }
            &&& padded.skip(padded.len() - digits.len()) == digits
            &&& forall|i: int| 0 <= i < padded.len() - digits.len() ==> #[trigger] padded[i] == '0'
        }),
{
    let digits = numeral(v);
    if v >= 16 {
        assert(digits.drop_last() =~= numeral(v / 16));
    }
    let padded = zero_padded(digits, width);
    assert(padded.skip(padded.len() - digits.len()) =~= digits);
}

/// Each byte is the Latin-1 character of its number.
pub proof fn law_bytes_are_latin1_characters(s: Seq<u8>)
    ensures
        latin1_chars(s).len() == s.len(),
        forall|i: int| 0 <= i < s.len() ==> #[trigger] latin1_chars(s)[i] as nat == s[i] as nat,
{
}

fn push_digit(out: &mut String, d: u8)
    requires
        d < 16,
    ensures
        final(out)@ == old(out)@.push(digit_char(d as nat)),
{
    let byte: u8 = if d < 10 { 0x30 + d } else { 0x57 + d };
    out.push(byte as char);
}

/// Append the numeral of `v`, in at least `width` digits.
pub(crate) fn push_numeral(out: &mut String, v: u64, width: usize)
    ensures
        final(out)@ == old(out)@ + zero_padded(numeral(v as nat), width as nat),
    decreases v, width,
{
    if v >= 16 {
        let rest: usize = if width > 0 { width - 1 } else { 0 };
        push_numeral(out, v / 16, rest);
        push_digit(out, (v % 16) as u8);
        assert(out@ =~= old(out)@ + zero_padded(numeral(v as nat), width as nat));
    } else {
        let mut left: usize = width;
        while left > 1
            invariant
                left <= width,
                width > 0 ==> left >= 1,
                out@ == old(out)@ + Seq::new((width - left) as nat, |i: int| '0'),
            decreases left,
        {
            out.push('0');
            left = left - 1;
            assert(out@ =~= old(out)@ + Seq::new((width - left) as nat, |i: int| '0'));
        }
        push_digit(out, v as u8);
        assert(out@ =~= old(out)@ + zero_padded(numeral(v as nat), width as nat));
    }
}

/// Append `n` copies of `fill`.
pub(crate) fn push_fill(out: &mut String, fill: char, n: usize)
    ensures
        final(out)@ == old(out)@ + Seq::new(n as nat, |i: int| fill),
{
    let mut done: usize = 0;
    assert(out@ =~= old(out)@ + Seq::new(0, |i: int| fill));
    while done < n
        invariant
            done <= n,
            out@ == old(out)@ + Seq::new(done as nat, |i: int| fill),
        decreases n - done,
    {
        out.push(fill);
        done = done + 1;
        assert(out@ =~= old(out)@ + Seq::new(done as nat, |i: int| fill));
    }
}

} // verus!

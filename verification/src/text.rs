//! Numbers and bytes as text.

use vstd::prelude::*;
use vstd::string::StringExecFns;
use vstd::utf8::encode_utf8;

verus! {

/// The character for a digit.
pub open spec fn digit(value: nat) -> char {
    (48 + value) as char
}

/// A number in decimal notation, without leading zeros.
pub open spec fn decimal(number: nat) -> Seq<char>
    decreases number,
{
    if number < 10 {
        seq![digit(number)]
    } else {
        decimal(number / 10).push(digit(number % 10))
    }
}

fn digit_text(value: u64) -> (result: &'static str)
    requires
        value < 10,
    ensures
        result@ == seq![digit(value as nat)],
{
    proof {
        reveal_strlit("0");
        reveal_strlit("1");
        reveal_strlit("2");
        reveal_strlit("3");
        reveal_strlit("4");
        reveal_strlit("5");
        reveal_strlit("6");
        reveal_strlit("7");
        reveal_strlit("8");
        reveal_strlit("9");
    }
    if value == 0 {
        "0"
    } else if value == 1 {
        "1"
    } else if value == 2 {
        "2"
    } else if value == 3 {
        "3"
    } else if value == 4 {
        "4"
    } else if value == 5 {
        "5"
    } else if value == 6 {
        "6"
    } else if value == 7 {
        "7"
    } else if value == 8 {
        "8"
    } else {
        "9"
    }
}

/// Appends a number to a text, in decimal notation.
pub fn append_decimal(text: &mut String, number: u64)
    ensures
        final(text)@ == old(text)@ + decimal(number as nat),
    decreases number,
{
    if number >= 10 {
        append_decimal(text, number / 10);
    }
    text.append(digit_text(number % 10));
    assert(text@ =~= old(text)@ + decimal(number as nat));
}

/// Whether bytes spell a text.
pub fn spells(bytes: &Vec<u8>, text: &str) -> (result: bool)
    ensures
        result == (bytes@ == encode_utf8(text@)),
{
    let letters = text.as_bytes();
    if bytes.len() != letters.len() {
        return false;
    }
    let mut i: usize = 0;
    while i < bytes.len()
        invariant
            i <= bytes@.len(),
            bytes@.len() == letters@.len(),
            letters@ == encode_utf8(text@),
            forall|j: int| 0 <= j < i ==> bytes@[j] == letters@[j],
        decreases bytes@.len() - i,
    {
        if bytes[i] != letters[i] {
            return false;
        }
        i += 1;
    }
    assert(bytes@ =~= letters@);
    true
}

/// The number that digits stand for.
pub open spec fn number_of(text: Seq<char>) -> int
    decreases text.len(),
{
    if text.len() == 0 {
        0
    } else {
        number_of(text.drop_last()) * 10 + (text.last() as int - '0' as int)
    }
}

/// Decimal notation reads back as the number. It is made of digits alone, and starts with a zero
/// only for the number zero.
pub proof fn law_decimal_reads_back(number: nat)
    ensures
        number_of(decimal(number)) == number,
        decimal(number).len() > 0,
        forall|i: int|
            0 <= i < decimal(number).len() ==> '0' <= #[trigger] decimal(number)[i] <= '9',
        number > 0 ==> decimal(number)[0] != '0',
        number == 0 ==> decimal(number).len() == 1,
    decreases number,
{
    let text = decimal(number);
    if number < 10 {
        assert(text.drop_last() =~= Seq::empty());
        assert(number_of(Seq::<char>::empty()) == 0);
        assert(number_of(text) == text.last() as int - '0' as int);
    } else {
        law_decimal_reads_back(number / 10);
        assert(text.drop_last() =~= decimal(number / 10));
        assert(text.last() as int - '0' as int == number % 10);
    }
}

/// Whether a text is made of digits, without a zero in front of others.
pub open spec fn is_numeral(text: Seq<char>) -> bool {
    &&& text.len() > 0
    &&& forall|i: int| 0 <= i < text.len() ==> '0' <= #[trigger] text[i] <= '9'
    &&& text.len() > 1 ==> text[0] != '0'
}

/// A numeral of several digits stands for a number that is not zero.
proof fn lemma_numeral_is_positive(text: Seq<char>)
    requires
        forall|i: int| 0 <= i < text.len() ==> '0' <= #[trigger] text[i] <= '9',
    ensures
        number_of(text) >= 0,
        text.len() > 0 && text[0] != '0' ==> number_of(text) > 0,
    decreases text.len(),
{
    if text.len() > 0 {
        let rest = text.drop_last();
        assert forall|i: int| 0 <= i < rest.len() implies '0' <= #[trigger] rest[i] <= '9' by {
            assert(rest[i] == text[i]);
        }
        lemma_numeral_is_positive(rest);
        assert('0' <= text[text.len() - 1] <= '9');
        if text.len() > 1 {
            assert(rest[0] == text[0]);
        }
    }
}

/// Decimal notation is the only numeral for a number.
pub proof fn law_decimal_is_the_only_numeral(text: Seq<char>)
    requires
        is_numeral(text),
    ensures
        number_of(text) >= 0,
        decimal(number_of(text) as nat) == text,
    decreases text.len(),
{
    let rest = text.drop_last();
    let last = text[text.len() - 1];
    let value = last as int - '0' as int;
    lemma_numeral_is_positive(text);
    assert('0' <= last <= '9');
    assert(digit(value as nat) == last);
    assert(rest.push(last) =~= text);
    if text.len() == 1 {
        assert(rest =~= Seq::empty());
        assert(number_of(rest) == 0);
        assert(decimal(value as nat) =~= text);
    } else {
        assert forall|i: int| 0 <= i < rest.len() implies '0' <= #[trigger] rest[i] <= '9' by {
            assert(rest[i] == text[i]);
        }
        assert(rest[0] == text[0]);
        lemma_numeral_is_positive(rest);
        law_decimal_is_the_only_numeral(rest);
        let number = number_of(text);
        assert(number == number_of(rest) * 10 + value);
        assert(number / 10 == number_of(rest) && number % 10 == value);
    }
}

} // verus!

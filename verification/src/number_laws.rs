//! Laws of numerals and of hexadecimal hashes: what is written is read back.
use vstd::prelude::*;
use vstd::string::StringSliceAdditionalSpecFns;
use vstd::utf8::{encode_utf8, is_ascii_chars, is_ascii_chars_encode_utf8, valid_utf8};

use crate::arguments::{
    ArgumentError, ArgumentErrorView, NumberError, digit_value, digits_value, hash_byte, hex_value,
    is_hash_of, lemma_two_bytes_of_text, number_value, pair_value, parse_hash, parse_number,
};
use crate::text::decimal;

verus! {

/// The decimal numeral of a number ends in its last digit, behind the numeral of what
/// is left without that digit; a number below ten is its one digit.
pub proof fn a_numeral_ends_in_its_last_digit(value: nat)
    ensures
        decimal(value).len() >= 1,
        decimal(value).last() as int == '0' as int + value % 10,
        value < 10 ==> decimal(value).len() == 1,
        value >= 10 ==> decimal(value).drop_last() == decimal(value / 10),
{
    if value >= 10 {
        assert(decimal(value).drop_last() =~= decimal(value / 10));
    }
}

proof fn lemma_numeral_is_digits(value: nat)
    ensures
        decimal(value).len() >= 1,
        forall|index: int|
            0 <= index < decimal(value).len() ==> '0' <= #[trigger] decimal(value)[index] <= '9',
    decreases value,
{
    if value >= 10 {
        lemma_numeral_is_digits(value / 10);
    }
}

proof fn lemma_numeral_is_read(value: nat, largest: nat)
    ensures
        digits_value(decimal(value), largest) == if value <= largest {
            Ok::<nat, NumberError>(value)
        } else {
            Err::<nat, NumberError>(NumberError::TooLarge)
        },
    decreases value,
{
    a_numeral_ends_in_its_last_digit(value);
    assert(digit_value(decimal(value).last()) == Some(value % 10));
    if value >= 10 {
        lemma_numeral_is_read(value / 10, largest);
    } else {
        assert(decimal(value).drop_last() =~= Seq::empty());
        assert(digits_value(decimal(value).drop_last(), largest) == Ok::<nat, NumberError>(0));
    }
}

/// A numeral is read back as its number, with a plus sign before it or not, and is too
/// large exactly if the number is.
pub proof fn numerals_are_read_back(value: nat, largest: nat)
    ensures
        number_value(decimal(value), largest) == if value <= largest {
            Ok::<nat, NumberError>(value)
        } else {
            Err::<nat, NumberError>(NumberError::TooLarge)
        },
        number_value(seq!['+'] + decimal(value), largest) == number_value(decimal(value), largest),
{
    lemma_numeral_is_digits(value);
    lemma_numeral_is_read(value, largest);
    let signed = seq!['+'] + decimal(value);
    assert(signed.skip(1) =~= decimal(value));
    assert(signed[0] == '+');
    assert(decimal(value)[0] != '+');
}

/// The number that digits stand for, by their places.
pub open spec fn worth(digits: Seq<char>) -> int
    decreases digits.len(),
{
    if digits.len() == 0 {
        0
    } else {
        worth(digits.drop_last()) * 10 + (digits.last() as int - '0' as int)
    }
}

proof fn lemma_digits_are_worth(digits: Seq<char>, largest: nat)
    ensures
        match digits_value(digits, largest) {
            Ok(value) => value == worth(digits) && value <= largest && forall|index: int|
                0 <= index < digits.len() ==> '0' <= #[trigger] digits[index] <= '9',
            Err(error) => {
                &&& error != NumberError::Empty
                &&& error == NumberError::InvalidDigit ==> exists|index: int|
                    0 <= index < digits.len() && !('0' <= #[trigger] digits[index] <= '9')
                &&& (forall|index: int|
                    0 <= index < digits.len() ==> '0' <= #[trigger] digits[index] <= '9')
                    ==> worth(digits) > largest && error == NumberError::TooLarge
            },
        },
    decreases digits.len(),
{
    if digits.len() > 0 {
        let rest = digits.drop_last();
        lemma_digits_are_worth(rest, largest);
        assert forall|index: int| 0 <= index < rest.len() implies #[trigger] rest[index]
            == digits[index] by {}
        let last = digits.len() - 1;
        match digits_value(rest, largest) {
            Ok(_) => {
                assert forall|index: int|
                    0 <= index < digits.len() && digit_value(digits.last()) is Some implies '0'
                    <= #[trigger] digits[index] <= '9' by {
                    if index < last {
                        assert('0' <= rest[index] <= '9');
                    }
                }
                if digit_value(digits.last()) is None {
                    assert(!('0' <= digits[last] <= '9'));
                }
            },
            Err(error) => {
                if error == NumberError::InvalidDigit {
                    let index = choose|index: int|
                        0 <= index < rest.len() && !('0' <= #[trigger] rest[index] <= '9');
                    assert(digits[index] == rest[index]);
                }
                if forall|index: int|
                    0 <= index < digits.len() ==> '0' <= #[trigger] digits[index] <= '9' {
                    assert forall|index: int| 0 <= index < rest.len() implies '0'
                        <= #[trigger] rest[index] <= '9' by {
                        assert('0' <= digits[index] <= '9');
                    }
                    assert('0' <= digits[last] <= '9');
                }
            },
        }
    }
}

/// A text is read as a number exactly if it is digits, behind a plus sign or not, that
/// are worth no more than the largest number; then it is read as what they are worth.
/// Only an empty text is empty, and only digits that are worth more are too large
/// without a bad character.
pub proof fn a_number_is_what_its_digits_are_worth(
    text: Seq<char>,
    largest: nat,
    digits: Seq<char>,
)
    requires
        digits == if text.len() > 1 && text[0] == '+' {
            text.skip(1)
        } else {
            text
        },
    ensures
        number_value(text, largest) == Err::<nat, NumberError>(NumberError::Empty) <==> text.len()
            == 0,
        number_value(text, largest) is Ok <==> text.len() > 0 && worth(digits) <= largest && (
        forall|index: int| 0 <= index < digits.len() ==> '0' <= #[trigger] digits[index] <= '9'),
        number_value(text, largest) matches Ok(value) ==> value == worth(digits),
        text.len() > 0 && worth(digits) > largest && (forall|index: int|
            0 <= index < digits.len() ==> '0' <= #[trigger] digits[index] <= '9') ==> number_value(
            text,
            largest,
        ) == Err::<nat, NumberError>(NumberError::TooLarge),
        number_value(text, largest) == Err::<nat, NumberError>(NumberError::InvalidDigit)
            ==> exists|index: int|
            0 <= index < digits.len() && !('0' <= #[trigger] digits[index] <= '9'),
{
    lemma_digits_are_worth(digits, largest);
}

/// A number is parsed as its text is read.
pub proof fn numbers_are_parsed_as_they_are_read(
    text: &str,
    largest: u64,
    parsed: Result<u64, NumberError>,
)
    requires
        call_ensures(parse_number, (text, largest), parsed),
    ensures
        match parsed {
            Ok(number) => number_value(text@, largest as nat) == Ok::<nat, NumberError>(
                number as nat,
            ),
            Err(error) => number_value(text@, largest as nat) == Err::<nat, NumberError>(error),
        },
{
}

/// Whether a character is the hexadecimal digit of a value, in either case.
pub open spec fn is_hex_digit(character: char, value: int) -> bool {
    ||| '0' <= character <= '9' && value == character as int - '0' as int
    ||| 'a' <= character <= 'f' && value == character as int - 'a' as int + 10
    ||| 'A' <= character <= 'F' && value == character as int - 'A' as int + 10
}

proof fn lemma_pair_of_digits(first: char, second: char, byte: u8)
    requires
        is_hex_digit(first, byte as int / 16),
        is_hex_digit(second, byte as int % 16),
    ensures
        pair_value(first as u8, second as u8) == Ok::<u8, ArgumentErrorView>(byte),
{
    let (one, other) = (first as u8, second as u8);
    assert(one == first as int && other == second as int);
    lemma_two_bytes_of_text(one, other);
    assert(hex_value(one) == Some((byte / 16) as u8));
    assert(hex_value(other) == Some((byte % 16) as u8));
}

/// Thirty-two bytes that are written in hexadecimal, two digits for each and in either
/// case, are read back.
pub proof fn hashes_are_read_back(
    text: &str,
    hash: [u8; 32],
    parsed: Result<[u8; 32], ArgumentError>,
)
    requires
        call_ensures(parse_hash, (text,), parsed),
        is_spelt(text@, hash),
    ensures
        parsed matches Ok(read) && read@ == hash@,
{
    lemma_hash_is_read(text@, hash, parsed);
}

/// Whether a text spells bytes in hexadecimal.
pub open spec fn is_spelt(text: Seq<char>, hash: [u8; 32]) -> bool {
    &&& text.len() == 64
    &&& forall|place: int|
        0 <= place < 32 ==> is_hex_digit(text[2 * place], #[trigger] hash@[place] as int / 16)
            && is_hex_digit(text[2 * place + 1], hash@[place] as int % 16)
}

pub proof fn lemma_hash_is_read(
    text: Seq<char>,
    hash: [u8; 32],
    parsed: Result<[u8; 32], ArgumentError>,
)
    requires
        is_hash_of(encode_utf8(text), parsed),
        is_spelt(text, hash),
    ensures
        parsed matches Ok(read) && read@ == hash@,
{
    assert forall|index: int| 0 <= index < text.len() implies '\0' <= #[trigger] text[index]
        <= '\u{7f}' by {
        let place = index / 2;
        assert(index == 2 * place || index == 2 * place + 1);
        assert(is_hex_digit(text[2 * place], hash@[place] as int / 16));
    }
    assert(is_ascii_chars(text));
    is_ascii_chars_encode_utf8(text);
    let bytes = encode_utf8(text);
    assert forall|place: int| 0 <= place < 32 implies #[trigger] hash_byte(bytes, place) == Ok::<
        u8,
        ArgumentErrorView,
    >(hash@[place]) by {
        assert(is_hex_digit(text[2 * place], hash@[place] as int / 16));
        lemma_pair_of_digits(text[2 * place], text[2 * place + 1], hash@[place]);
        assert(bytes[2 * place] == text[2 * place] as u8);
        assert(bytes[2 * place + 1] == text[2 * place + 1] as u8);
    }
    match parsed {
        Ok(read) => {
            assert forall|place: int| 0 <= place < 32 implies read@[place] == hash@[place] by {
                assert(hash_byte(bytes, place) == Ok::<u8, ArgumentErrorView>(read@[place]));
            }
            assert(read@ =~= hash@);
        },
        Err(_) => {},
    }
}

/// A text has one hash, or one reason why it has none.
pub proof fn lemma_hash_is_determined(
    text: Seq<u8>,
    left: Result<[u8; 32], ArgumentError>,
    right: Result<[u8; 32], ArgumentError>,
)
    requires
        is_hash_of(text, left),
        is_hash_of(text, right),
    ensures
        match (left, right) {
            (Ok(one), Ok(other)) => one@ == other@,
            (Err(one), Err(other)) => one@ == other@,
            _ => false,
        },
{
    if text.len() == 64 {
        match (left, right) {
            (Ok(one), Ok(other)) => {
                assert forall|place: int| 0 <= place < 32 implies one@[place] == other@[place] by {
                    assert(hash_byte(text, place) == Ok::<u8, ArgumentErrorView>(one@[place]));
                }
                assert(one@ =~= other@);
            },
            (Err(one), Err(other)) => {
                let p = first_bad_pair(text, one);
                let q = first_bad_pair(text, other);
                if p < q {
                    assert(hash_byte(text, p) is Ok);
                } else if q < p {
                    assert(hash_byte(text, q) is Ok);
                }
            },
            (Ok(_), Err(wrong)) => {
                let p = first_bad_pair(text, wrong);
                assert(hash_byte(text, p) is Ok);
            },
            (Err(wrong), Ok(_)) => {
                let p = first_bad_pair(text, wrong);
                assert(hash_byte(text, p) is Ok);
            },
        }
    }
}

proof fn first_bad_pair(text: Seq<u8>, error: ArgumentError) -> (place: int)
    requires
        text.len() == 64,
        is_hash_of(text, Err::<[u8; 32], ArgumentError>(error)),
    ensures
        0 <= place < 32,
        hash_byte(text, place) == Err::<u8, ArgumentErrorView>(error@),
        forall|earlier: int| 0 <= earlier < place ==> #[trigger] hash_byte(text, earlier) is Ok,
{
    choose|place: int|
        0 <= place < 32 && #[trigger] hash_byte(text, place) == Err::<u8, ArgumentErrorView>(
            error@,
        ) && forall|earlier: int|
            0 <= earlier < place ==> #[trigger] hash_byte(text, earlier) is Ok
}

/// Whether two characters stand for a byte of a hash: two hexadecimal digits, or a plus
/// sign and one.
pub open spec fn is_pair(first: char, second: char, byte: u8) -> bool {
    ||| is_hex_digit(first, byte as int / 16) && is_hex_digit(second, byte as int % 16)
    ||| first == '+' && is_hex_digit(second, byte as int)
}

/// Whether the two bytes at a place of a text stand for a byte of a hash.
pub open spec fn is_pair_at(text: Seq<u8>, place: int, byte: u8) -> bool {
    is_pair(text[2 * place] as char, text[2 * place + 1] as char, byte)
}

proof fn lemma_pair_at(text: Seq<u8>, place: int)
    requires
        text.len() == 64,
        0 <= place < 32,
    ensures
        match hash_byte(text, place) {
            Ok(value) => forall|byte: u8| #[trigger]
                is_pair_at(text, place, byte) <==> byte == value,
            Err(error) => {
                &&& forall|byte: u8| !(#[trigger] is_pair_at(text, place, byte))
                &&& error == if valid_utf8(seq![text[2 * place], text[2 * place + 1]]) {
                    ArgumentErrorView::Number(NumberError::InvalidDigit)
                } else {
                    ArgumentErrorView::HashText(text[2 * place], text[2 * place + 1])
                }
            },
        },
{
    let (one, other) = (text[2 * place], text[2 * place + 1]);
    lemma_two_bytes_of_text(one, other);
    assert forall|byte: u8| #[trigger] is_pair_at(text, place, byte) <==> hash_byte(text, place)
        == Ok::<u8, ArgumentErrorView>(byte) by {
        let (first, second) = (one as char, other as char);
        assert(first as int == one && second as int == other);
        if is_hex_digit(first, byte as int / 16) && is_hex_digit(second, byte as int % 16) {
            lemma_pair_of_digits(first, second, byte);
        }
    }
}

/// A text is read as a hash exactly if it has sixty-four bytes and each pair of them is
/// two hexadecimal digits, or a plus sign and one; then it is read as the bytes that they
/// are worth. A text of another length is turned down for its length. One of that length
/// is turned down for its first bad pair: for its bytes where they are no text by
/// themselves, and else for a bad digit.
pub proof fn a_hash_is_what_its_pairs_are_worth(
    text: &str,
    parsed: Result<[u8; 32], ArgumentError>,
)
    requires
        call_ensures(parse_hash, (text,), parsed),
    ensures
        text.spec_bytes().len() != 64 ==> parsed == Err::<[u8; 32], ArgumentError>(
            ArgumentError::HashLength,
        ),
        text.spec_bytes().len() == 64 ==> match parsed {
            Ok(read) => forall|place: int|
                0 <= place < 32 ==> is_pair_at(text.spec_bytes(), place, #[trigger] read@[place]),
            Err(error) => exists|place: int| #[trigger]
                is_first_bad_pair(text.spec_bytes(), place) && {
                    let first = text.spec_bytes()[2 * place];
                    let second = text.spec_bytes()[2 * place + 1];
                    if valid_utf8(seq![first, second]) {
                        error == ArgumentError::Number(NumberError::InvalidDigit)
                    } else {
                        error == ArgumentError::HashText(first, second)
                    }
                },
        },
{
    let bytes = text.spec_bytes();
    if bytes.len() == 64 {
        match parsed {
            Ok(read) => {
                assert forall|place: int| 0 <= place < 32 implies is_pair_at(
                    bytes,
                    place,
                    #[trigger] read@[place],
                ) by {
                    lemma_pair_at(bytes, place);
                    assert(hash_byte(bytes, place) == Ok::<u8, ArgumentErrorView>(read@[place]));
                }
            },
            Err(error) => {
                let bad = first_bad_pair(bytes, error);
                lemma_pair_at(bytes, bad);
                assert forall|earlier: int| 0 <= earlier < bad implies #[trigger] stands_for_a_byte(
                    bytes,
                    earlier,
                ) by {
                    lemma_pair_at(bytes, earlier);
                    assert(is_pair_at(bytes, earlier, hash_byte(bytes, earlier)->Ok_0));
                }
                assert(is_first_bad_pair(bytes, bad));
            },
        }
    }
}

/// Whether the two bytes at a place of a text stand for some byte of a hash.
pub open spec fn stands_for_a_byte(text: Seq<u8>, place: int) -> bool {
    exists|byte: u8| #[trigger] is_pair_at(text, place, byte)
}

/// Whether a place of a text holds the first pair that stands for no byte.
pub open spec fn is_first_bad_pair(text: Seq<u8>, place: int) -> bool {
    &&& 0 <= place < 32
    &&& !stands_for_a_byte(text, place)
    &&& forall|earlier: int| 0 <= earlier < place ==> #[trigger] stands_for_a_byte(text, earlier)
}

} // verus!

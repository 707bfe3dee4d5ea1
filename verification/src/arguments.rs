//! Command-line arguments: numbers, kinds, hashes and commands.
use std::collections::VecDeque;

use vstd::prelude::*;
use vstd::string::{StrSliceExecFns, StringExecFns, StringSliceAdditionalSpecFns};
use vstd::utf8::valid_utf8;

use crate::protocol::DocumentKind;
use crate::text::same_text;

verus! {

/// Why a text is not a number.
#[derive(Clone, Copy, Debug, PartialEq, Eq, Structural)]
pub enum NumberError {
    /// The text is empty.
    Empty,
    /// The text holds something that is not a digit.
    InvalidDigit,
    /// The number is larger than it may be.
    TooLarge,
}

/// Why arguments are turned down.
#[derive(Clone, Debug, PartialEq, Eq)]
pub enum ArgumentError {
    /// The named argument is missing.
    Missing(String),
    /// The socket path is missing.
    MissingSocket,
    /// The kind is missing.
    MissingKind,
    /// The hash is missing.
    MissingHash,
    /// An argument is not a number.
    Number(NumberError),
    /// There is no such kind of document.
    UnknownKind(String),
    /// A hash has another length than sixty-four bytes.
    HashLength,
    /// Two bytes of a hash are not text by themselves.
    HashText(u8, u8),
    /// There is no such command.
    Usage,
}

/// The content of an [`ArgumentError`].
pub ghost enum ArgumentErrorView {
    Missing(Seq<char>),
    MissingSocket,
    MissingKind,
    MissingHash,
    Number(NumberError),
    UnknownKind(Seq<char>),
    HashLength,
    HashText(u8, u8),
    Usage,
}

impl View for ArgumentError {
    type V = ArgumentErrorView;

    open spec fn view(&self) -> ArgumentErrorView {
        match *self {
            ArgumentError::Missing(name) => ArgumentErrorView::Missing(name@),
            ArgumentError::MissingSocket => ArgumentErrorView::MissingSocket,
            ArgumentError::MissingKind => ArgumentErrorView::MissingKind,
            ArgumentError::MissingHash => ArgumentErrorView::MissingHash,
            ArgumentError::Number(error) => ArgumentErrorView::Number(error),
            ArgumentError::UnknownKind(name) => ArgumentErrorView::UnknownKind(name@),
            ArgumentError::HashLength => ArgumentErrorView::HashLength,
            ArgumentError::HashText(first, second) => ArgumentErrorView::HashText(first, second),
            ArgumentError::Usage => ArgumentErrorView::Usage,
        }
    }
}

/// How the program is called.
pub open spec fn usage() -> Seq<char> {
    "usage: sema-storage daemon [socket] [database] | list|fetch|hash-fetch|snapshot|allocate|store-sema-family|subscribe <socket> ..."@
}

/// Where text fails in two bytes, and whether it fails because it ends too early.
pub ghost enum TextFault {
    /// A character begins, at the second byte or the first, and is cut short.
    CutShort { second: bool },
    /// The second byte or the first cannot stand where it stands.
    Unexpected { second: bool },
}

/// Whether two bytes are the first two of a character of three or four bytes.
pub open spec fn begins_character(first: u8, second: u8) -> bool {
    ||| first == 0xE0 && 0xA0 <= second <= 0xBF
    ||| 0xE1 <= first <= 0xEF && first != 0xED && 0x80 <= second <= 0xBF
    ||| first == 0xED && 0x80 <= second <= 0x9F
    ||| first == 0xF0 && 0x90 <= second <= 0xBF
    ||| 0xF1 <= first <= 0xF3 && 0x80 <= second <= 0xBF
    ||| first == 0xF4 && 0x80 <= second <= 0x8F
}

/// Where text fails in two bytes that are no text by themselves. After a first
/// byte that is a character of its own it fails at the second; the bytes that
/// begin a longer character are those from 194 to 244.
pub open spec fn text_fault(first: u8, second: u8) -> TextFault {
    if first < 128 {
        if 194 <= second <= 244 {
            TextFault::CutShort { second: true }
        } else {
            TextFault::Unexpected { second: true }
        }
    } else if begins_character(first, second) {
        TextFault::CutShort { second: false }
    } else {
        TextFault::Unexpected { second: false }
    }
}

fn is_character_begun(first: u8, second: u8) -> (begun: bool)
    ensures
        begun == begins_character(first, second),
{
    if first == 0xE0 {
        0xA0 <= second && second <= 0xBF
    } else if first == 0xED {
        0x80 <= second && second <= 0x9F
    } else if first == 0xF0 {
        0x90 <= second && second <= 0xBF
    } else if first == 0xF4 {
        0x80 <= second && second <= 0x8F
    } else {
        0xE1 <= first && first <= 0xF3 && 0x80 <= second && second <= 0xBF
    }
}

impl ArgumentErrorView {
    /// The reason in words.
    pub open spec fn message(self) -> Seq<char> {
        match self {
            ArgumentErrorView::Missing(name) => "missing "@ + name,
            ArgumentErrorView::MissingSocket => "missing socket path"@,
            ArgumentErrorView::MissingKind => "kind"@,
            ArgumentErrorView::MissingHash => "hash"@,
            ArgumentErrorView::Number(NumberError::Empty) =>
                "cannot parse integer from empty string"@,
            ArgumentErrorView::Number(NumberError::InvalidDigit) =>
                "invalid digit found in string"@,
            ArgumentErrorView::Number(NumberError::TooLarge) =>
                "number too large to fit in target type"@,
            ArgumentErrorView::UnknownKind(name) => "unknown document kind: "@ + name,
            ArgumentErrorView::HashLength => "hash must contain 64 hexadecimal digits"@,
            ArgumentErrorView::HashText(first, second) => match text_fault(first, second) {
                TextFault::CutShort { second: false } =>
                    "incomplete utf-8 byte sequence from index 0"@,
                TextFault::CutShort { second: true } =>
                    "incomplete utf-8 byte sequence from index 1"@,
                TextFault::Unexpected { second: false } =>
                    "invalid utf-8 sequence of 1 bytes from index 0"@,
                TextFault::Unexpected { second: true } =>
                    "invalid utf-8 sequence of 1 bytes from index 1"@,
            },
            ArgumentErrorView::Usage => usage(),
        }
    }
}

impl ArgumentError {
    /// The reason in words.
    pub fn message(&self) -> (text: String)
        ensures
            text@ == self@.message(),
    {
        match self {
            ArgumentError::Missing(name) => "missing ".to_string().concat(name.as_str()),
            ArgumentError::MissingSocket => "missing socket path".to_string(),
            ArgumentError::MissingKind => "kind".to_string(),
            ArgumentError::MissingHash => "hash".to_string(),
            ArgumentError::Number(NumberError::Empty) =>
                "cannot parse integer from empty string".to_string(),
            ArgumentError::Number(NumberError::InvalidDigit) =>
                "invalid digit found in string".to_string(),
            ArgumentError::Number(NumberError::TooLarge) =>
                "number too large to fit in target type".to_string(),
            ArgumentError::UnknownKind(name) => "unknown document kind: ".to_string().concat(
                name.as_str(),
            ),
            ArgumentError::HashLength => "hash must contain 64 hexadecimal digits".to_string(),
            ArgumentError::HashText(first, second) => {
                let text: &str = if *first < 128 {
                    if 194 <= *second && *second <= 244 {
                        "incomplete utf-8 byte sequence from index 1"
                    } else {
                        "invalid utf-8 sequence of 1 bytes from index 1"
                    }
                } else if is_character_begun(*first, *second) {
                    "incomplete utf-8 byte sequence from index 0"
                } else {
                    "invalid utf-8 sequence of 1 bytes from index 0"
                };
                text.to_string()
            },
            ArgumentError::Usage =>
                "usage: sema-storage daemon [socket] [database] | list|fetch|hash-fetch|snapshot|allocate|store-sema-family|subscribe <socket> ...".to_string(),
        }
    }
}

/// The value of a decimal digit.
pub open spec fn digit_value(character: char) -> Option<nat> {
    if '0' <= character && character <= '9' {
        Some((character as nat - '0' as nat) as nat)
    } else {
        None
    }
}

/// The number that digits stand for. Digits are taken from the left, up to the
/// first character that is not a digit or that makes the number too large.
pub open spec fn digits_value(digits: Seq<char>, largest: nat) -> Result<nat, NumberError>
    decreases digits.len(),
{
    if digits.len() == 0 {
        Ok(0)
    } else {
        match digits_value(digits.drop_last(), largest) {
            Err(error) => Err(error),
            Ok(value) => match digit_value(digits.last()) {
                None => Err(NumberError::InvalidDigit),
                Some(digit) => if value * 10 + digit > largest {
                    Err(NumberError::TooLarge)
                } else {
                    Ok(value * 10 + digit)
                },
            },
        }
    }
}

/// The number that a text stands for: digits, after a plus sign or not.
pub open spec fn number_value(text: Seq<char>, largest: nat) -> Result<nat, NumberError> {
    if text.len() == 0 {
        Err(NumberError::Empty)
    } else if text.len() > 1 && text[0] == '+' {
        digits_value(text.skip(1), largest)
    } else {
        digits_value(text, largest)
    }
}

/// Nothing after a bad character or an excess changes what is wrong.
proof fn lemma_early_error(digits: Seq<char>, largest: nat, count: int)
    requires
        0 <= count <= digits.len(),
        digits_value(digits.take(count), largest) is Err,
    ensures
        digits_value(digits, largest) == digits_value(digits.take(count), largest),
    decreases digits.len() - count,
{
    if count == digits.len() {
        assert(digits.take(count) =~= digits);
    } else {
        assert(digits.take(count + 1).drop_last() =~= digits.take(count));
        lemma_early_error(digits, largest, count + 1);
    }
}

/// The number that a text stands for, if it is no larger than `largest`.
pub fn parse_number(text: &str, largest: u64) -> (parsed: Result<u64, NumberError>)
    ensures
        match number_value(text@, largest as nat) {
            Ok(value) => parsed matches Ok(number) && number == value,
            Err(error) => parsed == Err::<u64, NumberError>(error),
        },
{
    let length: usize = text.unicode_len();
    if length == 0 {
        return Err(NumberError::Empty);
    }
    let start: usize = if length > 1 && text.get_char(0) == '+' {
        1
    } else {
        0
    };
    let ghost digits = text@.skip(start as int);
    assert(start == 0 ==> digits =~= text@);
    assert(digits.take(0) =~= Seq::empty());
    let mut value: u64 = 0;
    let mut index: usize = start;
    while index < length
        invariant
            start <= index <= length,
            start <= 1,
            length == text@.len(),
            digits == text@.skip(start as int),
            number_value(text@, largest as nat) == digits_value(digits, largest as nat),
            digits_value(digits.take(index - start), largest as nat) == Ok::<nat, NumberError>(
                value as nat,
            ),
            value <= largest,
        decreases length - index,
    {
        let character: char = text.get_char(index);
        proof {
            let longer = digits.take(index - start + 1);
            assert(longer.drop_last() =~= digits.take(index - start));
            assert(longer.last() == character);
        }
        if character < '0' || character > '9' {
            proof {
                lemma_early_error(digits, largest as nat, index - start + 1);
            }
            return Err(NumberError::InvalidDigit);
        }
        let digit: u64 = (character as u32 - '0' as u32) as u64;
        if value > largest / 10 || largest - value * 10 < digit {
            proof {
                lemma_early_error(digits, largest as nat, index - start + 1);
            }
            return Err(NumberError::TooLarge);
        }
        value = value * 10 + digit;
        index = index + 1;
    }
    assert(digits.take(index - start) =~= digits);
    Ok(value)
}

/// A type of numbers that an argument may be.
pub trait Number: Sized {
    /// The largest number of the type.
    spec fn largest() -> nat;

    /// The number as a mathematical one.
    spec fn value(self) -> nat;

    /// The largest number of the type.
    fn limit() -> (limit: u64)
        ensures
            limit == Self::largest(),
    ;

    /// The number of the type with the given value.
    fn from_value(value: u64) -> (number: Self)
        requires
            value <= Self::largest(),
        ensures
            number.value() == value,
    ;
}

impl Number for u32 {
    open spec fn largest() -> nat {
        u32::MAX as nat
    }

    open spec fn value(self) -> nat {
        self as nat
    }

    fn limit() -> (limit: u64) {
        u32::MAX as u64
    }

    fn from_value(value: u64) -> (number: u32) {
        value as u32
    }
}

impl Number for u64 {
    open spec fn largest() -> nat {
        u64::MAX as nat
    }

    open spec fn value(self) -> nat {
        self as nat
    }

    fn limit() -> (limit: u64) {
        u64::MAX
    }

    fn from_value(value: u64) -> (number: u64) {
        value
    }
}

/// The largest value found is never beyond the limit.
proof fn lemma_digits_are_bounded(digits: Seq<char>, largest: nat)
    ensures
        digits_value(digits, largest) matches Ok(value) ==> value <= largest,
    decreases digits.len(),
{
    if digits.len() > 0 {
        lemma_digits_are_bounded(digits.drop_last(), largest);
    }
}

/// Arguments that were not taken yet.
#[derive(Debug)]
pub struct Arguments {
    pub rest: VecDeque<String>,
}

impl View for Arguments {
    type V = Seq<Seq<char>>;

    open spec fn view(&self) -> Seq<Seq<char>> {
        self.rest@.map_values(|argument: String| argument@)
    }
}

impl Arguments {
    /// The given arguments, none of them taken.
    pub fn new(arguments: Vec<String>) -> (taken: Arguments)
        ensures
            taken@ == arguments@.map_values(|argument: String| argument@),
    {
        let mut rest: VecDeque<String> = VecDeque::new();
        for argument in iter: arguments
            invariant
                iter.seq() == arguments@,
                rest@ == arguments@.take(iter.index()),
        {
            rest.push_back(argument);
            assert(rest@ =~= arguments@.take(iter.index() + 1));
        }
        assert(arguments@.take(arguments@.len() as int) =~= arguments@);
        Arguments { rest }
    }

    /// Whether every argument was taken.
    pub fn is_empty(&self) -> (empty: bool)
        ensures
            empty == (self@.len() == 0),
    {
        self.rest.len() == 0
    }

    /// Takes the next argument, if there is one.
    pub fn next(&mut self) -> (argument: Option<String>)
        ensures
            if old(self)@.len() == 0 {
                argument is None && final(self)@ == old(self)@
            } else {
                &&& argument matches Some(text)
                &&& text@ == old(self)@[0]
                &&& final(self)@ == old(self)@.skip(1)
            },
    {
        let ghost before = self@;
        let argument = self.rest.pop_front();
        assert(before.len() > 0 ==> self@ =~= before.skip(1));
        assert(before.len() == 0 ==> self@ =~= before);
        argument
    }
}

/// Takes the next argument as a number.
pub fn parse<T: Number>(arguments: &mut Arguments, name: &str) -> (parsed: Result<T, ArgumentError>)
    ensures
        if old(arguments)@.len() == 0 {
            &&& parsed matches Err(error)
            &&& error@ == ArgumentErrorView::Missing(name@)
            &&& final(arguments)@ == old(arguments)@
        } else {
            &&& final(arguments)@ == old(arguments)@.skip(1)
            &&& match number_value(old(arguments)@[0], T::largest()) {
                Ok(value) => parsed matches Ok(number) && number.value() == value,
                Err(error) => parsed == Err::<T, ArgumentError>(ArgumentError::Number(error)),
            }
        },
{
    match arguments.next() {
        None => Err(ArgumentError::Missing(name.to_string())),
        Some(text) => match parse_number(text.as_str(), T::limit()) {
            Ok(value) => {
                proof {
                    lemma_digits_are_bounded(text@, T::largest());
                    lemma_digits_are_bounded(text@.skip(1), T::largest());
                }
                Ok(T::from_value(value))
            },
            Err(error) => Err(ArgumentError::Number(error)),
        },
    }
}

/// The kind of document that a name stands for.
pub open spec fn kind_named(name: Seq<char>) -> Option<DocumentKind> {
    if name == "type-schema"@ {
        Some(DocumentKind::TypeSchema)
    } else if name == "signal-contract"@ {
        Some(DocumentKind::SignalContract)
    } else if name == "nexus-runtime"@ {
        Some(DocumentKind::NexusRuntime)
    } else if name == "sema-storage"@ {
        Some(DocumentKind::SemaStorage)
    } else if name == "nomos"@ {
        Some(DocumentKind::Nomos)
    } else if name == "logos"@ {
        Some(DocumentKind::Logos)
    } else {
        None
    }
}

/// The kind of document that a name stands for.
pub fn parse_kind(value: &str) -> (parsed: Result<DocumentKind, ArgumentError>)
    ensures
        match kind_named(value@) {
            Some(kind) => parsed == Ok::<DocumentKind, ArgumentError>(kind),
            None => {
                &&& parsed matches Err(error)
                &&& error@ == ArgumentErrorView::UnknownKind(value@)
            },
        },
{
    if same_text(value, "type-schema") {
        Ok(DocumentKind::TypeSchema)
    } else if same_text(value, "signal-contract") {
        Ok(DocumentKind::SignalContract)
    } else if same_text(value, "nexus-runtime") {
        Ok(DocumentKind::NexusRuntime)
    } else if same_text(value, "sema-storage") {
        Ok(DocumentKind::SemaStorage)
    } else if same_text(value, "nomos") {
        Ok(DocumentKind::Nomos)
    } else if same_text(value, "logos") {
        Ok(DocumentKind::Logos)
    } else {
        Err(ArgumentError::UnknownKind(value.to_string()))
    }
}

/// The value of a hexadecimal digit, in either case.
pub open spec fn hex_value(byte: u8) -> Option<u8> {
    if 48 <= byte <= 57 {
        Some((byte - 48) as u8)
    } else if 65 <= byte <= 70 {
        Some((byte - 55) as u8)
    } else if 97 <= byte <= 102 {
        Some((byte - 87) as u8)
    } else {
        None
    }
}

/// The byte that two characters of a hash stand for: two hexadecimal digits, or
/// one after a plus sign.
pub open spec fn pair_value(first: u8, second: u8) -> Result<u8, ArgumentErrorView> {
    if !valid_utf8(seq![first, second]) {
        Err(ArgumentErrorView::HashText(first, second))
    } else if first == 43 {
        match hex_value(second) {
            Some(low) => Ok(low),
            None => Err(ArgumentErrorView::Number(NumberError::InvalidDigit)),
        }
    } else {
        match (hex_value(first), hex_value(second)) {
            (Some(high), Some(low)) => Ok((high * 16 + low) as u8),
            _ => Err(ArgumentErrorView::Number(NumberError::InvalidDigit)),
        }
    }
}

/// The byte at a place of a hash.
pub open spec fn hash_byte(text: Seq<u8>, place: int) -> Result<u8, ArgumentErrorView> {
    pair_value(text[2 * place], text[2 * place + 1])
}

/// Whether `parsed` is what a text stands for as a hash: the thirty-two bytes of
/// its pairs, or what is wrong with the first pair that stands for no byte.
pub open spec fn is_hash_of(
    text: Seq<u8>,
    parsed: Result<[u8; 32], ArgumentError>,
) -> bool {
    if text.len() != 64 {
        parsed == Err::<[u8; 32], ArgumentError>(ArgumentError::HashLength)
    } else {
        match parsed {
            Ok(hash) => forall|place: int|
                0 <= place < 32 ==> #[trigger] hash_byte(text, place) == Ok::<
                    u8,
                    ArgumentErrorView,
                >(hash@[place]),
            Err(error) => exists|place: int|
                0 <= place < 32 && #[trigger] hash_byte(text, place) == Err::<
                    u8,
                    ArgumentErrorView,
                >(error@) && forall|earlier: int|
                    0 <= earlier < place ==> #[trigger] hash_byte(text, earlier) is Ok,
        }
    }
}

/// When two bytes are text by themselves.
pub proof fn lemma_two_bytes_of_text(first: u8, second: u8)
    ensures
        valid_utf8(seq![first, second]) <==> (first < 128 && second < 128) || (194 <= first <= 223
            && 128 <= second <= 191),
{
    let pair = seq![first, second];
    assert((first & 0x7F) as u32 <= 0x7F) by (bit_vector);
    assert((second & 0x7F) as u32 <= 0x7F) by (bit_vector);
    assert(192 <= first <= 223 && 128 <= second <= 191 ==> {
        let codepoint = (((first & 0x1F) as u32) << 6) | ((second & 0x3F) as u32);
        codepoint <= 0x7FF && (codepoint >= 0x80 <==> first >= 194)
    }) by (bit_vector);
    reveal_with_fuel(valid_utf8, 3);
    if first < 128 {
        assert(vstd::utf8::pop_first_scalar(pair) =~= seq![second]);
        if second < 128 {
            assert(vstd::utf8::pop_first_scalar(seq![second]) =~= Seq::empty());
        }
    } else if 192 <= first <= 223 && 128 <= second <= 191 {
        assert(vstd::utf8::pop_first_scalar(pair) =~= Seq::empty());
    }
}

fn hex_digit(byte: u8) -> (digit: Option<u8>)
    ensures
        digit == hex_value(byte),
        digit matches Some(value) ==> value < 16,
{
    if 48 <= byte && byte <= 57 {
        Some(byte - 48)
    } else if 65 <= byte && byte <= 70 {
        Some(byte - 55)
    } else if 97 <= byte && byte <= 102 {
        Some(byte - 87)
    } else {
        None
    }
}

fn parse_pair(first: u8, second: u8) -> (parsed: Result<u8, ArgumentError>)
    ensures
        match pair_value(first, second) {
            Ok(byte) => parsed == Ok::<u8, ArgumentError>(byte),
            Err(error) => parsed matches Err(wrong) && wrong@ == error,
        },
{
    proof {
        lemma_two_bytes_of_text(first, second);
    }
    let is_text: bool = (first < 128 && second < 128) || (194 <= first && first <= 223 && 128
        <= second && second <= 191);
    if !is_text {
        return Err(ArgumentError::HashText(first, second));
    }
    if first == 43 {
        return match hex_digit(second) {
            Some(low) => Ok(low),
            None => Err(ArgumentError::Number(NumberError::InvalidDigit)),
        };
    }
    match (hex_digit(first), hex_digit(second)) {
        (Some(high), Some(low)) => Ok(high * 16 + low),
        _ => Err(ArgumentError::Number(NumberError::InvalidDigit)),
    }
}

/// The thirty-two bytes that a text of sixty-four bytes stands for, two for
/// each.
pub fn parse_hash(value: &str) -> (parsed: Result<[u8; 32], ArgumentError>)
    ensures
        is_hash_of(value.spec_bytes(), parsed),
{
    let text: &[u8] = value.as_bytes();
    if text.len() != 64 {
        return Err(ArgumentError::HashLength);
    }
    let mut output: [u8; 32] = [0u8;32];
    let mut place: usize = 0;
    while place < 32
        invariant
            place <= 32,
            text@.len() == 64,
            text@ == value.spec_bytes(),
            forall|earlier: int|
                0 <= earlier < place ==> #[trigger] hash_byte(text@, earlier) == Ok::<
                    u8,
                    ArgumentErrorView,
                >(output@[earlier]),
        decreases 32 - place,
    {
        match parse_pair(text[2 * place], text[2 * place + 1]) {
            Ok(byte) => {
                output[place] = byte;
                assert(hash_byte(text@, place as int) == Ok::<u8, ArgumentErrorView>(byte));
            },
            Err(error) => {
                assert(hash_byte(text@, place as int) == Err::<u8, ArgumentErrorView>(error@));
                return Err(error);
            },
        }
        place = place + 1;
    }
    Ok(output)
}

} // verus!

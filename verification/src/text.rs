//! Text: comparison of strings and decimal numerals.
use vstd::prelude::*;
use vstd::string::StringExecFns;

use crate::bytes::same_bytes;

verus! {

/// The character of one decimal digit.
pub open spec fn digit(value: nat) -> char {
    if value == 0 {
        '0'
    } else if value == 1 {
        '1'
    } else if value == 2 {
        '2'
    } else if value == 3 {
        '3'
    } else if value == 4 {
        '4'
    } else if value == 5 {
        '5'
    } else if value == 6 {
        '6'
    } else if value == 7 {
        '7'
    } else if value == 8 {
        '8'
    } else {
        '9'
    }
}

/// The decimal numeral of a number, without leading zeros.
pub open spec fn decimal(value: nat) -> Seq<char>
    decreases value,
{
    if value < 10 {
        seq![digit(value)]
    } else {
        decimal(value / 10).push(digit(value % 10))
    }
}

/// Whether a text holds no colon.
pub open spec fn colon_free(text: Seq<char>) -> bool {
    forall|index: int| 0 <= index < text.len() ==> text[index] != ':'
}

/// A numeral has at least one digit, exactly one below ten, and no colon.
pub proof fn lemma_decimal_shape(value: nat)
    ensures
        decimal(value).len() >= 1,
        decimal(value).len() == 1 <==> value < 10,
        colon_free(decimal(value)),
    decreases value,
{
    if value >= 10 {
        lemma_decimal_shape(value / 10);
    }
}

/// Two numbers have the same numeral only if they are the same number.
pub proof fn decimal_is_injective(left: nat, right: nat)
    requires
        decimal(left) == decimal(right),
    ensures
        left == right,
    decreases left,
{
    lemma_decimal_shape(left);
    lemma_decimal_shape(right);
    if left < 10 {
        assert(decimal(left)[0] == digit(left));
        assert(decimal(right)[0] == digit(right));
    } else {
        assert(decimal(left).drop_last() =~= decimal(left / 10));
        assert(decimal(right).drop_last() =~= decimal(right / 10));
        assert(decimal(left).last() == digit(left % 10));
        assert(decimal(right).last() == digit(right % 10));
        decimal_is_injective(left / 10, right / 10);
    }
}

/// A text that is split by its first colon is split in one way.
pub proof fn lemma_split_at_colon(
    left_head: Seq<char>,
    left_tail: Seq<char>,
    right_head: Seq<char>,
    right_tail: Seq<char>,
)
    requires
        colon_free(left_head),
        colon_free(right_head),
        left_head + seq![':'] + left_tail == right_head + seq![':'] + right_tail,
    ensures
        left_head == right_head,
        left_tail == right_tail,
{
    let left = left_head + seq![':'] + left_tail;
    let right = right_head + seq![':'] + right_tail;
    assert(left[left_head.len() as int] == ':');
    assert(right[right_head.len() as int] == ':');
    if left_head.len() < right_head.len() {
        assert(right[left_head.len() as int] == right_head[left_head.len() as int]);
    } else if right_head.len() < left_head.len() {
        assert(left[right_head.len() as int] == left_head[right_head.len() as int]);
    }
    assert(left_head.len() == right_head.len());
    assert(left_head =~= left.take(left_head.len() as int));
    assert(right_head =~= right.take(right_head.len() as int));
    assert(left_tail =~= left.skip(left_head.len() as int + 1));
    assert(right_tail =~= right.skip(right_head.len() as int + 1));
}

/// Whether two strings hold the same characters.
pub fn same_text(left: &str, right: &str) -> (same: bool)
    ensures
        same == (left@ == right@),
{
    proof {
        vstd::utf8::encode_utf8_decode_utf8(left@);
        vstd::utf8::encode_utf8_decode_utf8(right@);
    }
    same_bytes(left.as_bytes(), right.as_bytes())
}

fn digit_text(value: u64) -> (text: &'static str)
    requires
        value < 10,
    ensures
        text@ == seq![digit(value as nat)],
{
    proof {
        reveal_strlit("0");
        reveal_strlit("1");
        reveal_strlit("2");
        reveal_strlit("3");
        reveal_strlit("4");
        reveal_strlit("5");
        reveal_strlit("6");
        reveal_strlit("7");
        reveal_strlit("8");
        reveal_strlit("9");
    }
    match value {
        0 => "0",
        1 => "1",
        2 => "2",
        3 => "3",
        4 => "4",
        5 => "5",
        6 => "6",
        7 => "7",
        8 => "8",
        _ => "9",
    }
}

/// Appends the decimal numeral of a number to a string.
pub fn push_decimal(text: &mut String, value: u64)
    ensures
        final(text)@ == old(text)@ + decimal(value as nat),
    decreases value,
{
    if value >= 10 {
        push_decimal(text, value / 10);
    }
    text.append(digit_text(value % 10));
    assert(text@ =~= old(text)@ + decimal(value as nat));
}

} // verus!

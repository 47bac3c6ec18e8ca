//! The canonical text of a document: compact, on one line.
use super::token::{Decimal, Value};
use vstd::prelude::*;

verus! {

/// The integer part of a number as a literal writes it: the sign, where
/// the number is negative, and the digits.
pub open spec fn integer_text(number: Decimal) -> Seq<char> {
    (if number.negative {
        seq!['-']
    } else {
        Seq::empty()
    }) + number.integer
}

/// The decimal part of a number as a literal writes it: a point and the
/// digits; nothing where there are none.
pub open spec fn fraction_text(number: Decimal) -> Seq<char> {
    if number.fraction.len() > 0 {
        seq!['.'] + number.fraction
    } else {
        Seq::empty()
    }
}

/// The exponent part of a number as a literal writes it: `e`, the sign
/// where the exponent is negative, and the digits; nothing where there are
/// none.
pub open spec fn exponent_text(number: Decimal) -> Seq<char> {
    if number.exponent.len() > 0 {
        seq!['e'] + (if number.exponent_negative {
            seq!['-']
        } else {
            Seq::empty()
        }) + number.exponent
    } else {
        Seq::empty()
    }
}

/// A number as a literal writes it.
pub open spec fn number_text(number: Decimal) -> Seq<char> {
    integer_text(number) + fraction_text(number) + exponent_text(number)
}

/// A string between quotes, its text as it was stored.
pub open spec fn quoted(text: Seq<char>) -> Seq<char> {
    seq!['"'] + text + seq!['"']
}

/// The canonical text of a tree. Elements and members are separated by a
/// comma and a space, a key from its value by a colon and a space.
pub open spec fn render(value: Value) -> Seq<char>
    decreases value, 0nat,
{
    match value {
        Value::Null => seq!['n', 'u', 'l', 'l'],
        Value::Boolean(b) => if b {
            seq!['t', 'r', 'u', 'e']
        } else {
            seq!['f', 'a', 'l', 's', 'e']
        },
        Value::Number(number) => number_text(number),
        Value::Text(text) => quoted(text),
        Value::Array(items) => seq!['['] + render_items(items) + seq![']'],
        Value::Object(members) => seq!['{'] + render_members(members) + seq!['}'],
    }
}

/// The texts of `items`, separated by a comma and a space.
pub open spec fn render_items(items: Seq<Value>) -> Seq<char>
    decreases items, 1nat,
{
    if items.len() == 0 {
        Seq::empty()
    } else if items.len() == 1 {
        render(items.last())
    } else {
        render_items(items.drop_last()) + seq![',', ' '] + render(items.last())
    }
}

/// One member: the key between quotes, a colon, a space, and the value.
pub open spec fn render_member(member: (Seq<char>, Value)) -> Seq<char>
    decreases member, 0nat,
{
    quoted(member.0) + seq![':', ' '] + render(member.1)
}

/// The texts of `members`, separated by a comma and a space.
pub open spec fn render_members(members: Seq<(Seq<char>, Value)>) -> Seq<char>
    decreases members, 1nat,
{
    if members.len() == 0 {
        Seq::empty()
    } else if members.len() == 1 {
        render_member(members.last())
    } else {
        render_members(members.drop_last()) + seq![',', ' '] + render_member(members.last())
    }
}

} // verus!

//! What a query yields on a document, as functions on trees and steps.
use super::token::{whole_number, Step, Value};
use crate::text::{decimal, signed_decimal};
use vstd::prelude::*;

verus! {

/// The first of `members` from index `from` on that is named `key`.
pub open spec fn lookup(members: Seq<(Seq<char>, Value)>, key: Seq<char>, from: int) -> Option<
    Value,
>
    decreases members.len() - from,
{
    if 0 <= from < members.len() {
        if members[from].0 == key {
            Some(members[from].1)
        } else {
            lookup(members, key, from + 1)
        }
    } else {
        None
    }
}

/// The names of `members` as strings, in order.
pub open spec fn keys_of(members: Seq<(Seq<char>, Value)>) -> Seq<Value> {
    Seq::new(members.len(), |i: int| Value::Text(members[i].0))
}

/// The values of `members`, in order.
pub open spec fn values_in(members: Seq<(Seq<char>, Value)>) -> Seq<Value> {
    Seq::new(members.len(), |i: int| members[i].1)
}

/// The whole number `n` as a value.
pub open spec fn count(n: nat) -> Value {
    Value::Number(whole_number(n as int))
}

/// How a step is written in a message.
pub open spec fn step_name(step: Step) -> Seq<char> {
    match step {
        Step::Dot(name) => "."@ + name,
        Step::Bracket(name) => "[\""@ + name + "\"]"@,
        Step::Index(i) => "["@ + signed_decimal(i) + "]"@,
        Step::Keys => ".keys()"@,
        Step::Values => ".values()"@,
        Step::Length => ".length()"@,
        Step::MapEach(_) => ".map()"@,
    }
}

/// What a step asks of the value it is applied to.
pub open spec fn requirement(step: Step) -> Seq<char> {
    match step {
        Step::Dot(_) | Step::Bracket(_) => "Dot/Bracket properties are only valid on 'Object'"@,
        Step::Index(_) => "Indexing is only valid on 'Array'"@,
        Step::Keys | Step::Values => "'"@ + step_name(step) + "' can only be applied on 'Object'"@,
        Step::Length => "'"@ + step_name(step) + "' can only be applied on 'Array' or 'String'"@,
        Step::MapEach(_) => "'"@ + step_name(step) + "' can only be applied on 'Array'"@,
    }
}

/// The message for a step applied to a value of the wrong shape: what the
/// step asks for, and the variant that was found.
pub open spec fn mismatch(step: Step, value: Value) -> Seq<char> {
    " "@ + requirement(step) + ", found '"@ + value.variant() + "' instead."@
}

/// The message for a key that an object does not have.
pub open spec fn missing_key(name: Seq<char>) -> Seq<char> {
    " key doesn't exist: '"@ + name + "'"@
}

/// The message for an index outside an array of `len` elements.
pub open spec fn invalid_index(index: int, len: nat) -> Seq<char> {
    " Invalid index "@ + signed_decimal(index) + " (for array of len "@ + decimal(len) + ")"@
}

/// One step applied to a value: the value it leads to, or the message that
/// says why it leads nowhere.
pub open spec fn apply_step(value: Value, step: Step) -> Result<Value, Seq<char>>
    decreases step, 0nat,
{
    match step {
        Step::Dot(name) | Step::Bracket(name) => match value {
            Value::Object(members) => match lookup(members, name, 0) {
                Some(found) => Ok(found),
                None => Err(missing_key(name)),
            },
            _ => Err(mismatch(step, value)),
        },
        Step::Index(i) => match value {
            Value::Array(items) => if 0 <= i < items.len() {
                Ok(items[i])
            } else {
                Err(invalid_index(i, items.len()))
            },
            _ => Err(mismatch(step, value)),
        },
        Step::Keys => match value {
            Value::Object(members) => Ok(Value::Array(keys_of(members))),
            _ => Err(mismatch(step, value)),
        },
        Step::Values => match value {
            Value::Object(members) => Ok(Value::Array(values_in(members))),
            _ => Err(mismatch(step, value)),
        },
        Step::Length => match value {
            Value::Array(items) => Ok(count(items.len())),
            Value::Text(text) => Ok(count(text.len())),
            _ => Err(mismatch(step, value)),
        },
        Step::MapEach(query) => match value {
            Value::Array(items) => match apply_each(items, query) {
                Ok(results) => Ok(Value::Array(results)),
                Err(message) => Err(message),
            },
            _ => Err(mismatch(step, value)),
        },
    }
}

/// A query applied to each of `items` on its own: all the results in order,
/// or the message of the first item on which the query fails.
pub open spec fn apply_each(items: Seq<Value>, query: Seq<Step>) -> Result<Seq<Value>, Seq<char>>
    decreases query, items.len() + 1,
{
    if items.len() == 0 {
        Ok(Seq::empty())
    } else {
        match apply_each(items.drop_last(), query) {
            Ok(results) => match apply_query(items.last(), query) {
                Ok(result) => Ok(results.push(result)),
                Err(message) => Err(message),
            },
            Err(message) => Err(message),
        }
    }
}

/// The steps of a query applied one after the other, from left to right;
/// the first that fails ends the evaluation with its message.
pub open spec fn apply_query(value: Value, query: Seq<Step>) -> Result<Value, Seq<char>>
    decreases query, 0nat,
{
    if query.len() == 0 {
        Ok(value)
    } else {
        match apply_step(value, query[0]) {
            Ok(next) => apply_query(next, query.skip(1)),
            Err(message) => Err(message),
        }
    }
}

} // verus!

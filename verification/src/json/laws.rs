//! What holds of every document and every query.
use super::evaluate::{apply_each, apply_query, apply_step};
use super::grammar::{
    array_at, blank, boolean_at, digits, elements_at, exponent_at, fraction_at, is_whitespace,
    members_at, null_at, number_at, object_at, string_at, value_at,
};
use super::path::{property_at, query_of, steps_at};
use super::roundtrip::{lemma_dispatch, lemma_string_run_bound};
use super::token::{distinct_keys, has_key, Step, Value};
use crate::lexer::{char_at, has_char, is_digit, lemma_run_len_bounds, remaining};
use vstd::prelude::*;

verus! {

/// Whether every object in each of `items` names each of its keys once.
pub open spec fn all_unique(items: Seq<Value>) -> bool {
    forall|i: int| 0 <= i < items.len() ==> (#[trigger] items[i]).unique_keys()
}

/// Whether no two of `members` share a name, and every object in each of
/// their values names each of its keys once.
pub open spec fn members_unique(members: Seq<(Seq<char>, Value)>) -> bool {
    distinct_keys(members) && forall|i: int|
        0 <= i < members.len() ==> (#[trigger] members[i]).1.unique_keys()
}

/// No object that the parser yields names a key twice, at any depth:
/// whatever value stands at a place of a text, every object in it names
/// each of its keys once.
pub proof fn lemma_parsed_keys_unique(s: Seq<char>, pos: int)
    ensures
        value_at(s, pos).result matches Ok(value) ==> value.unique_keys(),
    decreases remaining(s, pos), 1int,
{
    match char_at(s, pos) {
        Some(c) => {
            if c == '[' {
                lemma_array_keys_unique(s, pos);
            } else if c == '{' {
                lemma_object_keys_unique(s, pos);
            }
        },
        None => {},
    }
}

/// The arrays that the parser yields hold no object that names a key twice.
pub proof fn lemma_array_keys_unique(s: Seq<char>, pos: int)
    ensures
        array_at(s, pos).result matches Ok(value) ==> value.unique_keys(),
    decreases remaining(s, pos), 0int,
{
    let start = pos + 1 + blank(s, pos + 1);
    if has_char(s, pos, '[') && !has_char(s, start, ']') {
        let first = value_at(s, start);
        lemma_parsed_keys_unique(s, start);
        match first.result {
            Ok(value) => {
                lemma_elements_keys_unique(s, start + first.consumed, seq![value]);
            },
            Err(_) => {},
        }
    }
}

/// Elements that follow elements without a key named twice make an array
/// without one.
pub proof fn lemma_elements_keys_unique(s: Seq<char>, pos: int, items: Seq<Value>)
    requires
        all_unique(items),
    ensures
        elements_at(s, pos, items).result matches Ok(value) ==> value.unique_keys(),
    decreases remaining(s, pos), 0int,
{
    let comma = pos + blank(s, pos);
    if has_char(s, comma, ',') {
        let start = comma + 1 + blank(s, comma + 1);
        let next = value_at(s, start);
        lemma_parsed_keys_unique(s, start);
        match next.result {
            Ok(value) => {
                assert(all_unique(items.push(value)));
                lemma_elements_keys_unique(s, start + next.consumed, items.push(value));
            },
            Err(_) => {},
        }
    }
}

/// The objects that the parser yields name no key twice, at any depth.
pub proof fn lemma_object_keys_unique(s: Seq<char>, pos: int)
    ensures
        object_at(s, pos).result matches Ok(value) ==> value.unique_keys(),
    decreases remaining(s, pos), 0int,
{
    let start = pos + 1 + blank(s, pos + 1);
    if has_char(s, pos, '{') && !has_char(s, start, '}') {
        lemma_members_keys_unique(s, start, Seq::empty());
    }
}

/// Members that follow members without a key named twice make an object
/// without one.
pub proof fn lemma_members_keys_unique(s: Seq<char>, pos: int, members: Seq<(Seq<char>, Value)>)
    requires
        members_unique(members),
    ensures
        members_at(s, pos, members).result matches Ok(value) ==> value.unique_keys(),
    decreases remaining(s, pos), 0int,
{
    let key = string_at(s, pos);
    match key.result {
        Ok(Value::Text(name)) => {
            if !has_key(members, name) {
                let colon = pos + key.consumed + blank(s, pos + key.consumed);
                if has_char(s, colon, ':') {
                    let start = colon + 1 + blank(s, colon + 1);
                    let inner = value_at(s, start);
                    lemma_parsed_keys_unique(s, start);
                    match inner.result {
                        Ok(value) => {
                            let grown = members.push((name, value));
                            assert(members_unique(grown)) by {
                                assert forall|i: int, j: int| 0 <= i < j < grown.len() implies (
                                #[trigger] grown[i]).0 != (#[trigger] grown[j]).0 by {
                                    if j == members.len() {
                                        assert(members[i].0 != name);
                                    }
                                }
                            }
                            let after = start + inner.consumed;
                            let comma = after + blank(s, after);
                            if has_char(s, comma, ',') {
                                let next = comma + 1 + blank(s, comma + 1);
                                if string_at(s, next).result is Ok {
                                    lemma_members_keys_unique(s, next, grown);
                                }
                            }
                        },
                        Err(_) => {},
                    }
                }
            }
        },
        _ => {},
    }
}

/// A mapping yields a result for every element or fails as a whole: where
/// the query succeeds on each of `items`, the results stand in the order of
/// the items; where it fails on one, the mapping fails with the message of
/// the first such item.
pub proof fn lemma_map_all_or_nothing(items: Seq<Value>, query: Seq<Step>)
    ensures
        match apply_each(items, query) {
            Ok(results) => results.len() == items.len() && forall|i: int|
                0 <= i < items.len() ==> apply_query(#[trigger] items[i], query) == Ok::<
                    Value,
                    Seq<char>,
                >(results[i]),
            Err(message) => exists|i: int|
                0 <= i < items.len() && apply_query(#[trigger] items[i], query) == Err::<
                    Value,
                    Seq<char>,
                >(message) && forall|j: int|
                    0 <= j < i ==> apply_query(#[trigger] items[j], query) is Ok,
        },
        apply_step(Value::Array(items), Step::MapEach(query)) is Ok <==> apply_each(
            items,
            query,
        ) is Ok,
    decreases items.len(),
{
    if items.len() > 0 {
        let front = items.drop_last();
        lemma_map_all_or_nothing(front, query);
        match apply_each(front, query) {
            Ok(results) => {
                match apply_query(items.last(), query) {
                    Ok(result) => {
                        assert forall|i: int| 0 <= i < items.len() implies apply_query(
                            #[trigger] items[i],
                            query,
                        ) == Ok::<Value, Seq<char>>(results.push(result)[i]) by {
                            if i < front.len() {
                                assert(front[i] == items[i]);
                            }
                        }
                    },
                    Err(message) => {
                        let last = items.len() - 1;
                        assert(apply_query(items[last], query) == Err::<Value, Seq<char>>(message));
                        assert forall|j: int| 0 <= j < last implies apply_query(
                            #[trigger] items[j],
                            query,
                        ) is Ok by {
                            assert(front[j] == items[j]);
                        }
                    },
                }
            },
            Err(message) => {
                let i = choose|i: int|
                    0 <= i < front.len() && apply_query(#[trigger] front[i], query) == Err::<
                        Value,
                        Seq<char>,
                    >(message) && forall|j: int|
                        0 <= j < i ==> apply_query(#[trigger] front[j], query) is Ok;
                assert(front[i] == items[i]);
                assert forall|j: int| 0 <= j < i implies apply_query(
                    #[trigger] items[j],
                    query,
                ) is Ok by {
                    assert(front[j] == items[j]);
                }
            },
        }
    }
}

/// A name in brackets leads where the same name after a dot leads, and
/// fails where it fails, with the same message.
pub proof fn lemma_bracket_is_dot(value: Value, name: Seq<char>)
    ensures
        apply_step(value, Step::Bracket(name)) == apply_step(value, Step::Dot(name)),
{
}

/// A query is applied from left to right: applying two queries one after
/// the other is applying the one that holds the steps of both, and a
/// failure of the first is the failure of the whole.
pub proof fn lemma_apply_in_sequence(value: Value, first: Seq<Step>, second: Seq<Step>)
    ensures
        apply_query(value, first + second) == match apply_query(value, first) {
            Ok(reached) => apply_query(reached, second),
            Err(message) => Err(message),
        },
    decreases first.len(),
{
    if first.len() == 0 {
        assert(first + second =~= second);
    } else {
        assert((first + second)[0] == first[0]);
        assert((first + second).skip(1) =~= first.skip(1) + second);
        match apply_step(value, first[0]) {
            Ok(next) => {
                lemma_apply_in_sequence(next, first.skip(1), second);
            },
            Err(_) => {},
        }
    }
}

/// Reading a run of digits never moves past the end of the text.
pub proof fn lemma_digits_stay_inside(s: Seq<char>, pos: int)
    requires
        0 <= pos <= s.len(),
    ensures
        pos + digits(s, pos) <= s.len(),
{
    lemma_run_len_bounds(s, pos, |c: char| is_digit(c));
}

/// Skipping whitespace never moves past the end of the text.
pub proof fn lemma_blank_stays_inside(s: Seq<char>, pos: int)
    requires
        0 <= pos <= s.len(),
    ensures
        pos + blank(s, pos) <= s.len(),
{
    lemma_run_len_bounds(s, pos, |c: char| is_whitespace(c));
}

/// Reading a number never moves past the end of the text.
pub proof fn lemma_number_stays_inside(s: Seq<char>, pos: int)
    requires
        0 <= pos <= s.len(),
    ensures
        pos + fraction_at(s, pos).consumed <= s.len(),
        pos + exponent_at(s, pos).consumed <= s.len(),
        pos + number_at(s, pos).consumed <= s.len(),
{
    lemma_part_stays_inside(s, pos);
    let sign: nat = if has_char(s, pos, '-') { 1 } else { 0 };
    lemma_digits_stay_inside(s, pos + sign);
    let whole = digits(s, pos + sign);
    if whole > 0 {
        let after = pos + sign + whole;
        lemma_part_stays_inside(s, after);
        lemma_part_stays_inside(s, after + fraction_at(s, after).consumed);
    }
}

/// Reading the decimal or the exponent part of a number never moves past
/// the end of the text.
pub proof fn lemma_part_stays_inside(s: Seq<char>, pos: int)
    requires
        0 <= pos <= s.len(),
    ensures
        pos + fraction_at(s, pos).consumed <= s.len(),
        pos + exponent_at(s, pos).consumed <= s.len(),
{
    if has_char(s, pos, '.') {
        lemma_digits_stay_inside(s, pos + 1);
    }
    if has_char(s, pos, 'e') || has_char(s, pos, 'E') {
        lemma_digits_stay_inside(s, pos + 1);
        if has_char(s, pos + 1, '+') || has_char(s, pos + 1, '-') {
            lemma_digits_stay_inside(s, pos + 2);
        }
    }
}

/// Reading a string never moves past the end of the text.
pub proof fn lemma_string_stays_inside(s: Seq<char>, pos: int)
    requires
        0 <= pos <= s.len(),
    ensures
        pos + string_at(s, pos).consumed <= s.len(),
{
    if has_char(s, pos, '"') {
        lemma_string_run_bound(s, pos + 1, false);
    }
}

/// The pointer never leaves the text: whatever stands at a place inside a
/// text, value or error, the place where reading it stops is inside the
/// text too.
pub proof fn lemma_value_stays_inside(s: Seq<char>, pos: int)
    requires
        0 <= pos <= s.len(),
    ensures
        pos + value_at(s, pos).consumed <= s.len(),
    decreases remaining(s, pos), 1int,
{
    lemma_dispatch(s, pos);
    if pos < s.len() {
        let c = s[pos];
        if c == '-' || is_digit(c) {
            lemma_number_stays_inside(s, pos);
        } else if c == '"' {
            lemma_string_stays_inside(s, pos);
        } else if c == '[' {
            lemma_array_stays_inside(s, pos);
        } else if c == '{' {
            lemma_object_stays_inside(s, pos);
        } else if c == 'n' {
            assert(pos + null_at(s, pos).consumed <= s.len());
        } else if c == 't' || c == 'f' {
            assert(pos + boolean_at(s, pos).consumed <= s.len());
        } else {
            assert(value_at(s, pos).consumed == 0);
        }
    } else {
        assert(value_at(s, pos).consumed == 0);
    }
}

/// Reading an array never moves past the end of the text.
pub proof fn lemma_array_stays_inside(s: Seq<char>, pos: int)
    requires
        0 <= pos <= s.len(),
    ensures
        pos + array_at(s, pos).consumed <= s.len(),
    decreases remaining(s, pos), 0int,
{
    if has_char(s, pos, '[') {
        let start = pos + 1 + blank(s, pos + 1);
        lemma_blank_stays_inside(s, pos + 1);
        if !has_char(s, start, ']') {
            lemma_value_stays_inside(s, start);
            let first = value_at(s, start);
            match first.result {
                Ok(value) => {
                    lemma_elements_stay_inside(s, start + first.consumed, seq![value]);
                },
                Err(_) => {},
            }
        }
    }
}

/// Reading an object never moves past the end of the text.
pub proof fn lemma_object_stays_inside(s: Seq<char>, pos: int)
    requires
        0 <= pos <= s.len(),
    ensures
        pos + object_at(s, pos).consumed <= s.len(),
    decreases remaining(s, pos), 0int,
{
    if has_char(s, pos, '{') {
        lemma_blank_stays_inside(s, pos + 1);
        let start = pos + 1 + blank(s, pos + 1);
        if !has_char(s, start, '}') {
            lemma_members_stay_inside(s, start, Seq::empty());
        }
    }
}

/// Reading the elements of an array never moves past the end of the text.
pub proof fn lemma_elements_stay_inside(s: Seq<char>, pos: int, items: Seq<Value>)
    requires
        0 <= pos <= s.len(),
    ensures
        pos + elements_at(s, pos, items).consumed <= s.len(),
    decreases remaining(s, pos), 0int,
{
    lemma_blank_stays_inside(s, pos);
    let comma = pos + blank(s, pos);
    if has_char(s, comma, ',') {
        lemma_blank_stays_inside(s, comma + 1);
        let start = comma + 1 + blank(s, comma + 1);
        lemma_value_stays_inside(s, start);
        let next = value_at(s, start);
        match next.result {
            Ok(value) => {
                lemma_elements_stay_inside(s, start + next.consumed, items.push(value));
            },
            Err(_) => {},
        }
    }
}

/// Reading the members of an object never moves past the end of the text.
pub proof fn lemma_members_stay_inside(s: Seq<char>, pos: int, members: Seq<(Seq<char>, Value)>)
    requires
        0 <= pos <= s.len(),
    ensures
        pos + members_at(s, pos, members).consumed <= s.len(),
    decreases remaining(s, pos), 0int,
{
    lemma_string_stays_inside(s, pos);
    let key = string_at(s, pos);
    lemma_blank_stays_inside(s, pos + key.consumed);
    match key.result {
        Ok(Value::Text(name)) => {
            if !has_key(members, name) {
                let colon = pos + key.consumed + blank(s, pos + key.consumed);
                if has_char(s, colon, ':') {
                    lemma_blank_stays_inside(s, colon + 1);
                    let start = colon + 1 + blank(s, colon + 1);
                    lemma_value_stays_inside(s, start);
                    let inner = value_at(s, start);
                    match inner.result {
                        Ok(value) => {
                            let after = start + inner.consumed;
                            lemma_blank_stays_inside(s, after);
                            let comma = after + blank(s, after);
                            if has_char(s, comma, ',') {
                                lemma_blank_stays_inside(s, comma + 1);
                                let next = comma + 1 + blank(s, comma + 1);
                                lemma_string_stays_inside(s, next);
                                if string_at(s, next).result is Ok {
                                    lemma_members_stay_inside(
                                        s,
                                        next,
                                        members.push((name, value)),
                                    );
                                }
                            }
                        },
                        Err(_) => {},
                    }
                }
            }
        },
        _ => {},
    }
}

/// Steps are read until the text ends or one fails: where no error ended
/// the reading, the pointer has reached the end of the text.
pub proof fn lemma_steps_read_to_the_end(s: Seq<char>, pos: int, steps: Seq<Step>)
    requires
        0 <= pos,
    ensures
        steps_at(s, pos, steps).stopped is None ==> pos + steps_at(s, pos, steps).consumed
            >= s.len(),
    decreases remaining(s, pos),
{
    let next = property_at(s, pos);
    match next.outcome {
        Some(Ok(step)) => {
            if next.consumed > 0 && pos < s.len() {
                lemma_steps_read_to_the_end(s, pos + next.consumed, steps.push(step));
            }
        },
        _ => {},
    }
}

/// A query that is read without error was read to the end of its text.
pub proof fn lemma_query_reads_all(s: Seq<char>)
    ensures
        query_of(s) is Ok ==> steps_at(s, 0, Seq::empty()).consumed >= s.len(),
{
    lemma_steps_read_to_the_end(s, 0, Seq::empty());
}

} // verus!

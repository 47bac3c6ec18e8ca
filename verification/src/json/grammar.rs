//! The grammar of documents, as functions from a text and a place in it to
//! what stands there.
use super::error::JsonErrorType;
use super::token::{has_key, Decimal, Value};
use crate::lexer::{
    char_at, has_char, has_word, is_digit, lemma_run_len_bounds, remaining, run_len,
};
use vstd::prelude::*;

verus! {

/// What stands at a place of a text: a value or the kind of error, and how
/// far the pointer moves from that place, error or not.
pub struct Parsed {
    pub result: Result<Value, JsonErrorType>,
    pub consumed: nat,
}

/// A value, read over `consumed` characters.
pub open spec fn accept(value: Value, consumed: nat) -> Parsed {
    Parsed { result: Ok(value), consumed }
}

/// A failure that leaves the pointer `consumed` characters on.
pub open spec fn reject(kind: JsonErrorType, consumed: nat) -> Parsed {
    Parsed { result: Err(kind), consumed }
}

/// The same outcome, seen from `by` characters before.
pub open spec fn shift(parsed: Parsed, by: nat) -> Parsed {
    Parsed { result: parsed.result, consumed: by + parsed.consumed }
}

/// Space, tab, line feed and carriage return.
pub open spec fn is_whitespace(c: char) -> bool {
    c == ' ' || c == '\t' || c == '\n' || c == '\r'
}

/// Length of the run of whitespace at `pos`.
pub open spec fn blank(s: Seq<char>, pos: int) -> nat {
    run_len(s, pos, |c: char| is_whitespace(c))
}

/// The literal `null`.
pub open spec fn null_at(s: Seq<char>, pos: int) -> Parsed {
    if has_word(s, pos, seq!['n', 'u', 'l', 'l']) {
        accept(Value::Null, 4)
    } else {
        reject(JsonErrorType::SyntaxError, 0)
    }
}

/// The literals `true` and `false`.
pub open spec fn boolean_at(s: Seq<char>, pos: int) -> Parsed {
    if has_word(s, pos, seq!['t', 'r', 'u', 'e']) {
        accept(Value::Boolean(true), 4)
    } else if has_word(s, pos, seq!['f', 'a', 'l', 's', 'e']) {
        accept(Value::Boolean(false), 5)
    } else {
        reject(JsonErrorType::SyntaxError, 0)
    }
}

/// Length of the run of digits at `pos`.
pub open spec fn digits(s: Seq<char>, pos: int) -> nat {
    run_len(s, pos, |c: char| is_digit(c))
}

/// A part of a number after its integer part: the digits it holds, whether
/// a minus sign stands before them, and how far it reaches.
pub struct Part {
    pub negative: bool,
    pub digits: Seq<char>,
    pub consumed: nat,
}

/// No part: nothing is read.
pub open spec fn no_part() -> Part {
    Part { negative: false, digits: Seq::empty(), consumed: 0 }
}

/// The decimal part of a number: a point and a run of at least one digit.
/// A point that no digit follows is no decimal part, and is not read.
pub open spec fn fraction_at(s: Seq<char>, pos: int) -> Part {
    if has_char(s, pos, '.') && digits(s, pos + 1) > 0 {
        Part {
            negative: false,
            digits: s.subrange(pos + 1, pos + 1 + digits(s, pos + 1)),
            consumed: 1 + digits(s, pos + 1),
        }
    } else {
        no_part()
    }
}

/// The exponent part of a number: `e` or `E`, an optional sign, and a run
/// of at least one digit. Where no digit follows there is no exponent part,
/// and nothing of it is read.
pub open spec fn exponent_at(s: Seq<char>, pos: int) -> Part {
    if has_char(s, pos, 'e') || has_char(s, pos, 'E') {
        let sign: nat = if has_char(s, pos + 1, '+') || has_char(s, pos + 1, '-') {
            1
        } else {
            0
        };
        let from = pos + 1 + sign;
        if digits(s, from) > 0 {
            Part {
                negative: has_char(s, pos + 1, '-'),
                digits: s.subrange(from, from + digits(s, from)),
                consumed: 1 + sign + digits(s, from),
            }
        } else {
            no_part()
        }
    } else {
        no_part()
    }
}

/// A number: an optional minus sign and a run of at least one digit, then
/// an optional decimal part, then an optional exponent part. Without a
/// digit it is a syntax error and nothing is read, not even the sign; a
/// decimal or exponent part that cannot be read ends the number before it.
pub open spec fn number_at(s: Seq<char>, pos: int) -> Parsed {
    let sign: nat = if has_char(s, pos, '-') { 1 } else { 0 };
    let whole = digits(s, pos + sign);
    if whole == 0 {
        reject(JsonErrorType::SyntaxError, 0)
    } else {
        let after = pos + sign + whole;
        let decimal = fraction_at(s, after);
        let power = exponent_at(s, after + decimal.consumed);
        accept(
            Value::Number(
                Decimal {
                    negative: sign == 1,
                    integer: s.subrange(pos + sign, after),
                    fraction: decimal.digits,
                    exponent_negative: power.negative,
                    exponent: power.digits,
                },
            ),
            sign + whole + decimal.consumed + power.consumed,
        )
    }
}

/// Length of the text of a string from `pos` on: it ends before the first
/// quote that is not escaped, or with the text. A backslash that is not
/// escaped itself escapes the character after it, so a quote is escaped
/// where an odd number of backslashes stand right before it. `escaped` says
/// whether the character at `pos` is escaped.
pub open spec fn string_run(s: Seq<char>, pos: int, escaped: bool) -> nat
    decreases remaining(s, pos),
{
    if 0 <= pos < s.len() && !(s[pos] == '"' && !escaped) {
        1 + string_run(s, pos + 1, s[pos] == '\\' && !escaped)
    } else {
        0
    }
}

/// A string: a quote, the text up to the closing quote, and that quote. The
/// text is kept as written, escape sequences and all.
pub open spec fn string_at(s: Seq<char>, pos: int) -> Parsed {
    if has_char(s, pos, '"') {
        let n = string_run(s, pos + 1, false);
        if has_char(s, pos + 1 + n, '"') {
            accept(Value::Text(s.subrange(pos + 1, pos + 1 + n)), n + 2)
        } else {
            reject(JsonErrorType::SyntaxError, n + 1)
        }
    } else {
        reject(JsonErrorType::SyntaxError, 0)
    }
}

/// Any value: the character at `pos` decides which.
pub open spec fn value_at(s: Seq<char>, pos: int) -> Parsed
    decreases remaining(s, pos), 1int,
{
    match char_at(s, pos) {
        Some(c) => {
            if c == '-' || is_digit(c) {
                number_at(s, pos)
            } else if c == 't' || c == 'f' {
                boolean_at(s, pos)
            } else if c == '"' {
                string_at(s, pos)
            } else if c == 'n' {
                null_at(s, pos)
            } else if c == '[' {
                array_at(s, pos)
            } else if c == '{' {
                object_at(s, pos)
            } else {
                reject(JsonErrorType::SyntaxError, 0)
            }
        },
        None => reject(JsonErrorType::SyntaxError, 0),
    }
}

/// An array: `[`, an optional first value, any number of `,` and a value,
/// and `]`, with whitespace between them at will. The array is empty where
/// `]` follows the whitespace after `[`; otherwise a first value must
/// stand there, and its error is the error of the array.
pub open spec fn array_at(s: Seq<char>, pos: int) -> Parsed
    decreases remaining(s, pos), 0int,
{
    if has_char(s, pos, '[') {
        let start = pos + 1 + blank(s, pos + 1);
        if has_char(s, start, ']') {
            accept(Value::Array(Seq::empty()), 2 + blank(s, pos + 1))
        } else {
            let first = value_at(s, start);
            let head = 1 + blank(s, pos + 1) + first.consumed;
            match first.result {
                Ok(value) => shift(elements_at(s, pos + head, seq![value]), head),
                Err(kind) => reject(kind, head),
            }
        }
    } else {
        reject(JsonErrorType::SyntaxError, 0)
    }
}

/// What follows the elements `items` of an array: a comma and the next
/// element, or the end of the array. A comma after which no value begins is
/// a trailing comma, and the pointer is left on it; a value that begins
/// there and fails gives its own error.
pub open spec fn elements_at(s: Seq<char>, pos: int, items: Seq<Value>) -> Parsed
    decreases remaining(s, pos), 0int,
{
    let comma = pos + blank(s, pos);
    if has_char(s, comma, ',') {
        let start = comma + 1 + blank(s, comma + 1);
        let next = value_at(s, start);
        match next.result {
            Ok(value) => shift(
                elements_at(s, start + next.consumed, items.push(value)),
                (start + next.consumed - pos) as nat,
            ),
            Err(kind) => if next.consumed == 0 {
                reject(JsonErrorType::TrailingCommaError, blank(s, pos))
            } else {
                reject(kind, (start + next.consumed - pos) as nat)
            },
        }
    } else {
        array_end_at(s, pos, items)
    }
}

/// The end of an array that holds `items`: whitespace and `]`.
pub open spec fn array_end_at(s: Seq<char>, pos: int, items: Seq<Value>) -> Parsed {
    if has_char(s, pos + blank(s, pos), ']') {
        accept(Value::Array(items), blank(s, pos) + 1)
    } else {
        reject(JsonErrorType::SyntaxError, blank(s, pos))
    }
}

/// An object: `{`, an optional first member, any number of `,` and a
/// member, and `}`, with whitespace between them at will. The object is
/// empty where `}` follows the whitespace after `{`; otherwise a first
/// member must stand there.
pub open spec fn object_at(s: Seq<char>, pos: int) -> Parsed
    decreases remaining(s, pos), 0int,
{
    if has_char(s, pos, '{') {
        let start = pos + 1 + blank(s, pos + 1);
        if has_char(s, start, '}') {
            accept(Value::Object(Seq::empty()), 2 + blank(s, pos + 1))
        } else {
            shift(members_at(s, start, Seq::empty()), 1 + blank(s, pos + 1))
        }
    } else {
        reject(JsonErrorType::SyntaxError, 0)
    }
}

/// A member of an object that holds `members` already, and what follows it.
/// The member is a key at `pos`, a colon and a value. A key that `members`
/// has already is a duplicate, and the pointer is left where that key
/// starts. Where no key stands at `pos` it is a syntax error at the place
/// where the attempt to read one stopped. After the member
/// comes the end of the object, or a comma and the next member; a comma
/// after which no key begins is a trailing comma, and the pointer is left on
/// it, while a key that begins there and does not end is a syntax error.
pub open spec fn members_at(s: Seq<char>, pos: int, members: Seq<(Seq<char>, Value)>) -> Parsed
    decreases remaining(s, pos), 0int,
{
    let key = string_at(s, pos);
    match key.result {
        Ok(Value::Text(name)) => {
            if has_key(members, name) {
                reject(JsonErrorType::DuplicateKeyError, 0)
            } else {
                let colon = pos + key.consumed + blank(s, pos + key.consumed);
                if has_char(s, colon, ':') {
                    let start = colon + 1 + blank(s, colon + 1);
                    let inner = value_at(s, start);
                    match inner.result {
                        Ok(value) => {
                            let after = start + inner.consumed;
                            let comma = after + blank(s, after);
                            if has_char(s, comma, ',') {
                                let next = comma + 1 + blank(s, comma + 1);
                                if string_at(s, next).result is Ok {
                                    shift(
                                        members_at(s, next, members.push((name, value))),
                                        (next - pos) as nat,
                                    )
                                } else if string_at(s, next).consumed == 0 {
                                    reject(JsonErrorType::TrailingCommaError, (comma - pos) as nat)
                                } else {
                                    reject(
                                        JsonErrorType::SyntaxError,
                                        (next + string_at(s, next).consumed - pos) as nat,
                                    )
                                }
                            } else {
                                shift(
                                    object_end_at(s, after, members.push((name, value))),
                                    (after - pos) as nat,
                                )
                            }
                        },
                        Err(kind) => reject(kind, (start + inner.consumed - pos) as nat),
                    }
                } else {
                    reject(JsonErrorType::SyntaxError, (colon - pos) as nat)
                }
            }
        },
        _ => reject(JsonErrorType::SyntaxError, key.consumed),
    }
}

/// The end of an object that holds `members`: whitespace and `}`.
pub open spec fn object_end_at(s: Seq<char>, pos: int, members: Seq<(Seq<char>, Value)>) -> Parsed {
    if has_char(s, pos + blank(s, pos), '}') {
        accept(Value::Object(members), blank(s, pos) + 1)
    } else {
        reject(JsonErrorType::SyntaxError, blank(s, pos))
    }
}

/// A document: whitespace, then a value. What follows the value is not
/// looked at.
pub open spec fn document_at(s: Seq<char>, pos: int) -> Parsed {
    shift(value_at(s, pos + blank(s, pos)), blank(s, pos))
}

/// Where walking back from `pos` over whitespace stops: at the first
/// character that is none, or at the start of the text.
pub open spec fn retreat(s: Seq<char>, pos: int) -> int
    decreases pos,
{
    if 0 < pos < s.len() && is_whitespace(s[pos]) {
        retreat(s, pos - 1)
    } else {
        pos
    }
}

/// After a run of whitespace no whitespace follows.
pub proof fn lemma_blank_once(s: Seq<char>, pos: int)
    ensures
        blank(s, pos + blank(s, pos)) == 0,
{
    lemma_run_len_bounds(s, pos, |c: char| is_whitespace(c));
}

/// Walking back from the end of the whitespace that follows a mark arrives
/// at the mark.
pub proof fn lemma_retreat_to_mark(s: Seq<char>, mark: int, from: int)
    requires
        0 <= mark <= from < s.len(),
        !is_whitespace(s[mark]),
        forall|i: int| mark < i <= from ==> is_whitespace(#[trigger] s[i]),
    ensures
        retreat(s, from) == mark,
    decreases from - mark,
{
    if from > mark {
        lemma_retreat_to_mark(s, mark, from - 1);
    }
}

} // verus!

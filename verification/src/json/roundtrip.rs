//! Reading the canonical text of a document back yields the document.
use super::grammar::{
    accept, array_at, blank, boolean_at, digits, document_at, elements_at, exponent_at,
    fraction_at, is_whitespace, members_at, null_at, number_at, object_at, object_end_at, shift,
    string_at, string_run, value_at, Part,
};
use super::render::{
    exponent_text, fraction_text, integer_text, number_text, quoted, render, render_items,
    render_member, render_members,
};
use super::token::{distinct_keys, has_key, whole_number, Decimal, Value};
use crate::lexer::{
    char_at, has_char, has_word, is_digit, lemma_run_len_bounds, lemma_run_len_is, remaining,
};
use crate::text::{decimal, digit_char};
use vstd::prelude::*;

verus! {

/// A word made of two parts stands at a place exactly when the first part
/// stands there and the second right after it.
pub proof fn lemma_has_word_split(s: Seq<char>, pos: int, a: Seq<char>, b: Seq<char>)
    ensures
        has_word(s, pos, a + b) <==> has_word(s, pos, a) && has_word(s, pos + a.len(), b),
{
    if has_word(s, pos, a + b) {
        assert(s.subrange(pos, pos + a.len()) =~= a) by {
            assert forall|i: int| 0 <= i < a.len() implies s.subrange(pos, pos + a.len())[i]
                == a[i] by {
                assert(s.subrange(pos, pos + (a + b).len())[i] == (a + b)[i]);
            }
        }
        assert(s.subrange(pos + a.len(), pos + a.len() + b.len()) =~= b) by {
            assert forall|i: int| 0 <= i < b.len() implies s.subrange(
                pos + a.len(),
                pos + a.len() + b.len(),
            )[i] == b[i] by {
                assert(s.subrange(pos, pos + (a + b).len())[a.len() + i] == (a + b)[a.len() + i]);
            }
        }
    }
    if has_word(s, pos, a) && has_word(s, pos + a.len(), b) {
        assert(s.subrange(pos, pos + (a + b).len()) =~= a + b) by {
            assert forall|i: int| 0 <= i < (a + b).len() implies s.subrange(
                pos,
                pos + (a + b).len(),
            )[i] == (a + b)[i] by {
                if i < a.len() {
                    assert(s.subrange(pos, pos + a.len())[i] == a[i]);
                } else {
                    assert(s.subrange(pos + a.len(), pos + a.len() + b.len())[i - a.len()] == b[i
                        - a.len()]);
                }
            }
        }
    }
}

/// The characters of a word that stands at a place are those of the text.
pub proof fn lemma_has_word_chars(s: Seq<char>, pos: int, word: Seq<char>)
    requires
        has_word(s, pos, word),
    ensures
        forall|i: int| 0 <= i < word.len() ==> #[trigger] s[pos + i] == word[i],
{
    assert forall|i: int| 0 <= i < word.len() implies #[trigger] s[pos + i] == word[i] by {
        assert(s.subrange(pos, pos + word.len())[i] == word[i]);
    }
}

/// Whether every character of `text` is a digit.
pub open spec fn is_digits(text: Seq<char>) -> bool {
    forall|i: int| 0 <= i < text.len() ==> is_digit(#[trigger] text[i])
}

/// The decimal notation of a number has at least one character, all of them
/// digits.
pub proof fn lemma_decimal_digits(n: nat)
    ensures
        decimal(n).len() >= 1,
        is_digits(decimal(n)),
    decreases n,
{
    if n < 10 {
        assert(decimal(n) =~= seq![digit_char(n)]);
    } else {
        lemma_decimal_digits(n / 10);
    }
}

/// A whole number is in the form in which the parser yields numbers, so
/// that its text is read back as that number.
pub proof fn lemma_whole_number_literal(n: int)
    ensures
        is_literal_number(whole_number(n)),
{
    lemma_decimal_digits((if n < 0 {
        -n
    } else {
        n
    }) as nat);
}

/// A run of digits that stands at a place, with no digit after it, is the
/// run of digits that is read there.
pub proof fn lemma_digits_run(s: Seq<char>, pos: int, text: Seq<char>)
    requires
        is_digits(text),
        has_word(s, pos, text),
        !(pos + text.len() < s.len() && is_digit(s[pos + text.len()])),
    ensures
        digits(s, pos) == text.len(),
        s.subrange(pos, pos + text.len()) == text,
{
    lemma_has_word_chars(s, pos, text);
    let pred = |c: char| is_digit(c);
    assert forall|i: int| pos <= i < pos + text.len() implies pred(#[trigger] s[i]) by {
        assert(s[pos + (i - pos)] == text[i - pos]);
    }
    lemma_run_len_is(s, pos, text.len(), pred);
}

/// The form in which the parser yields numbers: at least one digit in the
/// integer part, nothing but digits in the three parts, and no sign on an
/// exponent that is not there.
pub open spec fn is_literal_number(number: Decimal) -> bool {
    &&& number.integer.len() > 0
    &&& is_digits(number.integer)
    &&& is_digits(number.fraction)
    &&& is_digits(number.exponent)
    &&& number.exponent.len() == 0 ==> !number.exponent_negative
}

/// A character that, standing right after a number, would be read as part
/// of it or begin a further part of it.
pub open spec fn continues_number(c: char) -> bool {
    is_digit(c) || c == '.' || c == 'e' || c == 'E'
}

/// Whether a number that ends before `pos` ends there for the parser too:
/// the text ends, or goes on with a character that no number takes in.
pub open spec fn token_ends(s: Seq<char>, pos: int) -> bool {
    !(0 <= pos < s.len() && continues_number(s[pos]))
}

/// The decimal part of a number, as it is written, is read back.
pub proof fn lemma_fraction_reparse(s: Seq<char>, pos: int, number: Decimal)
    requires
        is_digits(number.fraction),
        has_word(s, pos, fraction_text(number)),
        !(0 <= pos + fraction_text(number).len() < s.len() && (is_digit(
            s[pos + fraction_text(number).len()],
        ) || s[pos + fraction_text(number).len()] == '.')),
    ensures
        fraction_at(s, pos) == (Part {
            negative: false,
            digits: number.fraction,
            consumed: fraction_text(number).len(),
        }),
{
    if number.fraction.len() > 0 {
        lemma_has_word_split(s, pos, seq!['.'], number.fraction);
        lemma_has_word_chars(s, pos, seq!['.']);
        assert(s[pos + 0] == '.');
        lemma_digits_run(s, pos + 1, number.fraction);
    } else {
        assert(number.fraction =~= Seq::<char>::empty());
    }
}

/// The exponent part of a number, as it is written, is read back.
pub proof fn lemma_exponent_reparse(s: Seq<char>, pos: int, number: Decimal)
    requires
        is_digits(number.exponent),
        number.exponent.len() == 0 ==> !number.exponent_negative,
        has_word(s, pos, exponent_text(number)),
        token_ends(s, pos + exponent_text(number).len()),
    ensures
        exponent_at(s, pos) == (Part {
            negative: number.exponent_negative,
            digits: number.exponent,
            consumed: exponent_text(number).len(),
        }),
{
    if number.exponent.len() > 0 {
        let sign: Seq<char> = if number.exponent_negative {
            seq!['-']
        } else {
            Seq::empty()
        };
        assert(exponent_text(number) == (seq!['e'] + sign) + number.exponent);
        lemma_has_word_split(s, pos, seq!['e'] + sign, number.exponent);
        lemma_has_word_split(s, pos, seq!['e'], sign);
        lemma_has_word_chars(s, pos, seq!['e']);
        assert(s[pos + 0] == 'e');
        if number.exponent_negative {
            lemma_has_word_chars(s, pos + 1, sign);
            assert(s[pos + 1 + 0] == '-');
            lemma_digits_run(s, pos + 2, number.exponent);
        } else {
            lemma_has_word_chars(s, pos + 1, number.exponent);
            assert(s[pos + 1 + 0] == number.exponent[0]);
            assert(is_digit(number.exponent[0]));
            lemma_digits_run(s, pos + 1, number.exponent);
        }
    } else {
        assert(number.exponent =~= Seq::<char>::empty());
    }
}

/// A number in the form that the parser yields, as it is written, is read
/// back as the same number.
pub proof fn lemma_number_reparse(s: Seq<char>, pos: int, number: Decimal)
    requires
        is_literal_number(number),
        has_word(s, pos, number_text(number)),
        token_ends(s, pos + number_text(number).len()),
    ensures
        number_at(s, pos) == accept(Value::Number(number), number_text(number).len()),
{
    let sign: Seq<char> = if number.negative {
        seq!['-']
    } else {
        Seq::empty()
    };
    let fraction = fraction_text(number);
    let exponent = exponent_text(number);
    assert(number_text(number) == ((sign + number.integer) + fraction) + exponent);
    lemma_has_word_split(s, pos, (sign + number.integer) + fraction, exponent);
    lemma_has_word_split(s, pos, sign + number.integer, fraction);
    lemma_has_word_split(s, pos, sign, number.integer);
    let p0 = pos + sign.len();
    let p1 = p0 + number.integer.len();
    let p2 = p1 + fraction.len();
    if number.negative {
        lemma_has_word_chars(s, pos, sign);
        assert(s[pos + 0] == '-');
    } else {
        lemma_has_word_chars(s, pos, number.integer);
        assert(s[pos + 0] == number.integer[0]);
        assert(is_digit(number.integer[0]));
    }
    // what follows the integer part is no digit
    if fraction.len() > 0 {
        lemma_has_word_chars(s, p1, fraction);
        assert(s[p1 + 0] == fraction[0]);
    } else if exponent.len() > 0 {
        lemma_has_word_chars(s, p1, exponent);
        assert(s[p1 + 0] == exponent[0]);
    }
    lemma_digits_run(s, p0, number.integer);
    // what follows the decimal part is no digit and no point
    if exponent.len() > 0 {
        lemma_has_word_chars(s, p2, exponent);
        assert(s[p2 + 0] == exponent[0]);
    }
    lemma_fraction_reparse(s, p1, number);
    lemma_exponent_reparse(s, p2, number);
}

/// Whether the character at index `k` of `text` is escaped: an odd number
/// of backslashes stand right before it.
pub open spec fn escaped_at(text: Seq<char>, k: int) -> bool
    decreases k,
{
    0 < k <= text.len() && text[k - 1] == '\\' && !escaped_at(text, k - 1)
}

/// A text that a string literal can hold as it is: each quote in it is
/// escaped, and the quote that follows it would not be, so it stands after
/// an odd run of backslashes wherever it holds a quote, and ends with no
/// odd run of them.
pub open spec fn well_quoted(text: Seq<char>) -> bool {
    &&& forall|i: int| 0 <= i < text.len() && #[trigger] text[i] == '"' ==> escaped_at(text, i)
    &&& !escaped_at(text, text.len() as int)
}

/// From the `k`-th character of a well quoted text on, the text of the
/// string runs to the quote that follows the text.
pub proof fn lemma_string_run_from(s: Seq<char>, start: int, text: Seq<char>, k: int)
    requires
        well_quoted(text),
        has_word(s, start, text.push('"')),
        0 <= k <= text.len(),
    ensures
        string_run(s, start + k, escaped_at(text, k)) == text.len() - k,
    decreases text.len() - k,
{
    lemma_has_word_chars(s, start, text.push('"'));
    assert(s[start + k] == text.push('"')[k]);
    if k < text.len() {
        assert(text.push('"')[k] == text[k]);
        assert(escaped_at(text, k + 1) == (text[k] == '\\' && !escaped_at(text, k)));
        lemma_string_run_from(s, start, text, k + 1);
    }
}

/// A well quoted text between quotes is read back as that text.
pub proof fn lemma_string_reparse(s: Seq<char>, pos: int, text: Seq<char>)
    requires
        well_quoted(text),
        has_word(s, pos, quoted(text)),
    ensures
        string_at(s, pos) == accept(Value::Text(text), quoted(text).len()),
{
    assert(quoted(text) =~= seq!['"'] + text.push('"'));
    lemma_has_word_split(s, pos, seq!['"'], text.push('"'));
    lemma_has_word_chars(s, pos, seq!['"']);
    assert(s[pos + 0] == '"');
    lemma_has_word_chars(s, pos + 1, text.push('"'));
    assert(s[pos + 1 + text.len()] == text.push('"')[text.len() as int]);
    lemma_string_run_from(s, pos + 1, text, 0);
    assert(s.subrange(pos + 1, pos + 1 + text.len()) =~= text) by {
        assert forall|i: int| 0 <= i < text.len() implies s.subrange(
            pos + 1,
            pos + 1 + text.len(),
        )[i] == text[i] by {
            assert(s[pos + 1 + i] == text.push('"')[i]);
        }
    }
}

/// The text of a string stays inside the text it is read from, and where
/// it ends before the end of that text a quote follows.
pub proof fn lemma_string_run_bound(s: Seq<char>, pos: int, escaped: bool)
    requires
        0 <= pos,
    ensures
        string_run(s, pos, escaped) <= remaining(s, pos),
        pos + string_run(s, pos, escaped) < s.len() ==> s[pos + string_run(s, pos, escaped)]
            == '"',
    decreases remaining(s, pos),
{
    if pos < s.len() && !(s[pos] == '"' && !escaped) {
        lemma_string_run_bound(s, pos + 1, s[pos] == '\\' && !escaped);
    }
}

/// After `k` characters of the text of a string, the rest of it runs from
/// there on, in the state of escape that the text before gives.
pub proof fn lemma_string_scan(s: Seq<char>, start: int, k: int)
    requires
        0 <= start,
        0 <= k <= string_run(s, start, false),
    ensures
        string_run(s, start, false) == k + string_run(
            s,
            start + k,
            escaped_at(s.subrange(start, start + string_run(s, start, false)), k),
        ),
    decreases k,
{
    let n = string_run(s, start, false) as int;
    lemma_string_run_bound(s, start, false);
    let text = s.subrange(start, start + n);
    if k > 0 {
        lemma_string_scan(s, start, k - 1);
        assert(text[k - 1] == s[start + k - 1]);
        assert(escaped_at(text, k) == (text[k - 1] == '\\' && !escaped_at(text, k - 1)));
    }
}

/// The text of every string that the parser yields is well quoted.
pub proof fn lemma_string_at_well_quoted(s: Seq<char>, pos: int)
    ensures
        string_at(s, pos).result matches Ok(Value::Text(text)) ==> well_quoted(text),
        string_at(s, pos).result matches Ok(value) ==> value is Text,
{
    if has_char(s, pos, '"') {
        let n = string_run(s, pos + 1, false) as int;
        lemma_string_run_bound(s, pos + 1, false);
        if has_char(s, pos + 1 + n, '"') {
            let text = s.subrange(pos + 1, pos + 1 + n);
            assert forall|i: int| 0 <= i < text.len() && #[trigger] text[i] == '"' implies escaped_at(
                text,
                i,
            ) by {
                lemma_string_scan(s, pos + 1, i);
                assert(s[pos + 1 + i] == '"');
            }
            lemma_string_scan(s, pos + 1, n);
        }
    }
}

/// The form in which the parser yields documents: numbers in their literal
/// form, strings and keys well quoted, and no key twice in an object.
pub open spec fn is_literal(value: Value) -> bool
    decreases value,
{
    match value {
        Value::Number(number) => is_literal_number(number),
        Value::Text(text) => well_quoted(text),
        Value::Array(items) => forall|i: int|
            0 <= i < items.len() ==> is_literal(#[trigger] items[i]),
        Value::Object(members) => distinct_keys(members) && forall|i: int|
            0 <= i < members.len() ==> well_quoted((#[trigger] members[i]).0) && is_literal(
                members[i].1,
            ),
        _ => true,
    }
}

/// Whether each of `items` is in the form in which the parser yields it.
pub open spec fn all_literal(items: Seq<Value>) -> bool {
    forall|i: int| 0 <= i < items.len() ==> is_literal(#[trigger] items[i])
}

/// Whether `members` are in the form in which the parser yields them.
pub open spec fn members_literal(members: Seq<(Seq<char>, Value)>) -> bool {
    distinct_keys(members) && forall|i: int|
        0 <= i < members.len() ==> well_quoted((#[trigger] members[i]).0) && is_literal(
            members[i].1,
        )
}

/// Every number that the parser yields is in its literal form.
pub proof fn lemma_number_at_literal(s: Seq<char>, pos: int)
    ensures
        number_at(s, pos).result matches Ok(value) ==> is_literal(value),
{
    let pred = |c: char| is_digit(c);
    let sign: nat = if has_char(s, pos, '-') { 1 } else { 0 };
    let whole = digits(s, pos + sign);
    if whole > 0 {
        let after = pos + sign + whole;
        lemma_run_len_bounds(s, pos + sign, pred);
        lemma_run_len_bounds(s, after + 1, pred);
        let decimal = fraction_at(s, after);
        let last = after + decimal.consumed;
        lemma_run_len_bounds(s, last + 1, pred);
        lemma_run_len_bounds(s, last + 2, pred);
        assert(is_digits(s.subrange(pos + sign, after)));
        assert(is_digits(decimal.digits));
        assert(is_digits(exponent_at(s, last).digits));
    }
}

/// Every value that the parser yields is in the literal form.
pub proof fn lemma_parsed_is_literal(s: Seq<char>, pos: int)
    ensures
        value_at(s, pos).result matches Ok(value) ==> is_literal(value),
    decreases remaining(s, pos), 1int,
{
    match char_at(s, pos) {
        Some(c) => {
            if c == '-' || is_digit(c) {
                lemma_number_at_literal(s, pos);
            } else if c == 't' || c == 'f' {
            } else if c == '"' {
                lemma_string_at_well_quoted(s, pos);
            } else if c == 'n' {
            } else if c == '[' {
                let start = pos + 1 + blank(s, pos + 1);
                if !has_char(s, start, ']') {
                    let first = value_at(s, start);
                    lemma_parsed_is_literal(s, start);
                    match first.result {
                        Ok(value) => {
                            lemma_elements_literal(s, start + first.consumed, seq![value]);
                        },
                        Err(_) => {},
                    }
                }
            } else if c == '{' {
                let start = pos + 1 + blank(s, pos + 1);
                if !has_char(s, start, '}') {
                    lemma_members_literal(s, start, Seq::empty());
                }
            }
        },
        None => {},
    }
}

/// Elements that follow literal elements make a literal array.
pub proof fn lemma_elements_literal(s: Seq<char>, pos: int, items: Seq<Value>)
    requires
        all_literal(items),
    ensures
        elements_at(s, pos, items).result matches Ok(value) ==> is_literal(value),
    decreases remaining(s, pos), 0int,
{
    let comma = pos + blank(s, pos);
    if has_char(s, comma, ',') {
        let start = comma + 1 + blank(s, comma + 1);
        let next = value_at(s, start);
        lemma_parsed_is_literal(s, start);
        match next.result {
            Ok(value) => {
                assert(all_literal(items.push(value)));
                lemma_elements_literal(s, start + next.consumed, items.push(value));
            },
            Err(_) => {},
        }
    }
}

/// Members that follow literal members make a literal object.
pub proof fn lemma_members_literal(s: Seq<char>, pos: int, members: Seq<(Seq<char>, Value)>)
    requires
        members_literal(members),
    ensures
        members_at(s, pos, members).result matches Ok(value) ==> is_literal(value),
    decreases remaining(s, pos), 0int,
{
    let key = string_at(s, pos);
    lemma_string_at_well_quoted(s, pos);
    match key.result {
        Ok(Value::Text(name)) => {
            if !has_key(members, name) {
                let colon = pos + key.consumed + blank(s, pos + key.consumed);
                if has_char(s, colon, ':') {
                    let start = colon + 1 + blank(s, colon + 1);
                    let inner = value_at(s, start);
                    lemma_parsed_is_literal(s, start);
                    match inner.result {
                        Ok(value) => {
                            let grown = members.push((name, value));
                            assert(members_literal(grown)) by {
                                assert forall|i: int, j: int| 0 <= i < j < grown.len() implies (
                                #[trigger] grown[i]).0 != (#[trigger] grown[j]).0 by {
                                    if j == members.len() {
                                        assert(members[i].0 != name);
                                    }
                                }
                            }
                            let after = start + inner.consumed;
                            let comma = after + blank(s, after);
                            if has_char(s, comma, ',') {
                                let next = comma + 1 + blank(s, comma + 1);
                                if string_at(s, next).result is Ok {
                                    lemma_members_literal(s, next, grown);
                                }
                            }
                        },
                        Err(_) => {},
                    }
                }
            }
        },
        _ => {},
    }
}

/// What follows the first `k` of `items` in the text of an array: a comma,
/// a space and the text of each further element.
pub open spec fn rest_items(items: Seq<Value>, k: int) -> Seq<char>
    decreases items.len() - k,
{
    if 0 <= k < items.len() {
        seq![',', ' '] + render(items[k]) + rest_items(items, k + 1)
    } else {
        Seq::empty()
    }
}

/// What follows the first `k` of `members` in the text of an object: a
/// comma, a space and the text of each further member.
pub open spec fn rest_members(members: Seq<(Seq<char>, Value)>, k: int) -> Seq<char>
    decreases members.len() - k,
{
    if 0 <= k < members.len() {
        seq![',', ' '] + render_member(members[k]) + rest_members(members, k + 1)
    } else {
        Seq::empty()
    }
}

/// The text of the elements is the text of the first `k` and what follows
/// them.
pub proof fn lemma_render_items_split(items: Seq<Value>, k: int)
    requires
        1 <= k <= items.len(),
    ensures
        render_items(items) == render_items(items.take(k)) + rest_items(items, k),
    decreases items.len() - k,
{
    if k == items.len() {
        assert(items.take(k) =~= items);
        assert(render_items(items) =~= render_items(items) + Seq::<char>::empty());
    } else {
        lemma_render_items_split(items, k + 1);
        assert(items.take(k + 1).drop_last() =~= items.take(k));
        assert(items.take(k + 1).last() == items[k]);
        assert(render_items(items.take(k + 1)) == render_items(items.take(k)) + seq![',', ' ']
            + render(items[k]));
        assert(render_items(items) =~= render_items(items.take(k)) + rest_items(items, k));
    }
}

/// The text of the members is the text of the first `k` and what follows
/// them.
pub proof fn lemma_render_members_split(members: Seq<(Seq<char>, Value)>, k: int)
    requires
        1 <= k <= members.len(),
    ensures
        render_members(members) == render_members(members.take(k)) + rest_members(members, k),
    decreases members.len() - k,
{
    if k == members.len() {
        assert(members.take(k) =~= members);
        assert(render_members(members) =~= render_members(members) + Seq::<char>::empty());
    } else {
        lemma_render_members_split(members, k + 1);
        assert(members.take(k + 1).drop_last() =~= members.take(k));
        assert(members.take(k + 1).last() == members[k]);
        assert(render_members(members.take(k + 1)) == render_members(members.take(k)) + seq![
            ',',
            ' ',
        ] + render_member(members[k]));
        assert(render_members(members) =~= render_members(members.take(k)) + rest_members(
            members,
            k,
        ));
    }
}

/// A character that the text of a value begins with.
pub open spec fn begins_value(c: char) -> bool {
    c == 'n' || c == 't' || c == 'f' || c == '"' || c == '[' || c == '{' || c == '-' || is_digit(c)
}

/// The text of a literal value is not empty, and its first character tells
/// which kind of value it is.
pub proof fn lemma_render_begins(value: Value)
    requires
        is_literal(value),
    ensures
        render(value).len() > 0,
        begins_value(render(value)[0]),
        match value {
            Value::Null => render(value)[0] == 'n',
            Value::Boolean(b) => render(value)[0] == (if b {
                't'
            } else {
                'f'
            }),
            Value::Number(_) => render(value)[0] == '-' || is_digit(render(value)[0]),
            Value::Text(_) => render(value)[0] == '"',
            Value::Array(_) => render(value)[0] == '[',
            Value::Object(_) => render(value)[0] == '{',
        },
{
    match value {
        Value::Number(number) => {
            assert(is_digit(number.integer[0]));
            assert(render(value)[0] == integer_text(number)[0]);
        },
        _ => {},
    }
}

/// No whitespace stands at a place where the text ends or goes on with a
/// character that is none.
pub proof fn lemma_blank_none(s: Seq<char>, pos: int)
    requires
        !(0 <= pos < s.len() && is_whitespace(s[pos])),
    ensures
        blank(s, pos) == 0,
{
}

/// One space that a character other than whitespace follows is a run of
/// whitespace of length one.
pub proof fn lemma_blank_one(s: Seq<char>, pos: int)
    requires
        0 <= pos,
        pos + 1 < s.len(),
        s[pos] == ' ',
        !is_whitespace(s[pos + 1]),
    ensures
        blank(s, pos) == 1,
{
    lemma_run_len_is(s, pos, 1, |c: char| is_whitespace(c));
}

/// Which production reads the value at a place, by the character there.
pub proof fn lemma_dispatch(s: Seq<char>, pos: int)
    ensures
        has_char(s, pos, 'n') ==> value_at(s, pos) == null_at(s, pos),
        has_char(s, pos, 't') || has_char(s, pos, 'f') ==> value_at(s, pos) == boolean_at(s, pos),
        has_char(s, pos, '"') ==> value_at(s, pos) == string_at(s, pos),
        has_char(s, pos, '[') ==> value_at(s, pos) == array_at(s, pos),
        has_char(s, pos, '{') ==> value_at(s, pos) == object_at(s, pos),
        0 <= pos < s.len() && (s[pos] == '-' || is_digit(s[pos])) ==> value_at(s, pos)
            == number_at(s, pos),
{
}

/// The word `null` is read back as the null value.
pub proof fn lemma_null_reparse(s: Seq<char>, pos: int)
    requires
        has_word(s, pos, render(Value::Null)),
    ensures
        value_at(s, pos) == accept(Value::Null, render(Value::Null).len()),
{
    lemma_has_word_chars(s, pos, render(Value::Null));
    assert(s[pos + 0] == render(Value::Null)[0]);
    lemma_dispatch(s, pos);
}

/// The words `true` and `false` are read back as the truth values.
pub proof fn lemma_boolean_reparse(s: Seq<char>, pos: int, b: bool)
    requires
        has_word(s, pos, render(Value::Boolean(b))),
    ensures
        value_at(s, pos) == accept(Value::Boolean(b), render(Value::Boolean(b)).len()),
{
    lemma_has_word_chars(s, pos, render(Value::Boolean(b)));
    assert(s[pos + 0] == render(Value::Boolean(b))[0]);
    lemma_dispatch(s, pos);
    if !b {
        if has_word(s, pos, seq!['t', 'r', 'u', 'e']) {
            lemma_has_word_chars(s, pos, seq!['t', 'r', 'u', 'e']);
            assert(s[pos + 0] == 't');
        }
    }
}

/// The text of a value in the literal form is read back as that value, from
/// any place of any text where it stands and is not followed by a character
/// that a number would take in.
pub proof fn lemma_reparse(s: Seq<char>, pos: int, value: Value)
    requires
        is_literal(value),
        has_word(s, pos, render(value)),
        token_ends(s, pos + render(value).len()),
    ensures
        value_at(s, pos) == accept(value, render(value).len()),
    decreases value, 0nat,
{
    match value {
        Value::Null => {
            lemma_null_reparse(s, pos);
        },
        Value::Boolean(b) => {
            lemma_boolean_reparse(s, pos, b);
        },
        Value::Number(number) => {
            lemma_render_begins(value);
            lemma_has_word_chars(s, pos, render(value));
            assert(s[pos + 0] == render(value)[0]);
            lemma_number_reparse(s, pos, number);
            lemma_dispatch(s, pos);
        },
        Value::Text(text) => {
            lemma_has_word_chars(s, pos, render(value));
            assert(s[pos + 0] == render(value)[0]);
            lemma_string_reparse(s, pos, text);
            lemma_dispatch(s, pos);
        },
        Value::Array(items) => {
            lemma_has_word_chars(s, pos, render(value));
            assert(s[pos + 0] == render(value)[0]);
            lemma_array_reparse(s, pos, items);
            lemma_dispatch(s, pos);
        },
        Value::Object(members) => {
            lemma_has_word_chars(s, pos, render(value));
            assert(s[pos + 0] == render(value)[0]);
            lemma_object_reparse(s, pos, members);
            lemma_dispatch(s, pos);
        },
    }
}

/// The text of a literal array is read back as that array.
pub proof fn lemma_array_reparse(s: Seq<char>, pos: int, items: Seq<Value>)
    requires
        all_literal(items),
        has_word(s, pos, render(Value::Array(items))),
    ensures
        array_at(s, pos) == accept(Value::Array(items), render(Value::Array(items)).len()),
    decreases items, items.len() + 1,
{
    let value = Value::Array(items);
    let inner = render_items(items);
    assert(render(value) == (seq!['['] + inner) + seq![']']);
    lemma_has_word_split(s, pos, seq!['['] + inner, seq![']']);
    lemma_has_word_split(s, pos, seq!['['], inner);
    lemma_has_word_chars(s, pos, seq!['[']);
    assert(s[pos + 0] == '[');
    lemma_has_word_chars(s, pos + 1 + inner.len(), seq![']']);
    assert(s[pos + 1 + inner.len() + 0] == ']');
    if items.len() == 0 {
        lemma_blank_none(s, pos + 1);
        assert(items =~= Seq::<Value>::empty());
    } else {
        lemma_render_items_split(items, 1);
        assert(items.take(1).last() == items[0]);
        let first = render(items[0]);
        let rest = rest_items(items, 1);
        lemma_has_word_split(s, pos + 1, first, rest);
        lemma_render_begins(items[0]);
        lemma_has_word_chars(s, pos + 1, first);
        assert(s[pos + 1 + 0] == first[0]);
        lemma_blank_none(s, pos + 1);
        let after = pos + 1 + first.len();
        assert(has_word(s, after, rest + seq![']'])) by {
            lemma_has_word_split(s, after, rest, seq![']']);
        }
        lemma_rest_items_begins(items, 1);
        lemma_has_word_chars(s, after, rest + seq![']']);
        assert(s[after + 0] == (rest + seq![']'])[0]);
        lemma_reparse(s, pos + 1, items[0]);
        lemma_elements_reparse(s, after, items, 1);
        assert(items.take(1) =~= seq![items[0]]);
        assert(array_at(s, pos) == shift(
            elements_at(s, after, seq![items[0]]),
            (1 + first.len()) as nat,
        ));
    }
}

/// The text of a literal object is read back as that object.
pub proof fn lemma_object_reparse(s: Seq<char>, pos: int, members: Seq<(Seq<char>, Value)>)
    requires
        members_literal(members),
        has_word(s, pos, render(Value::Object(members))),
    ensures
        object_at(s, pos) == accept(Value::Object(members), render(Value::Object(members)).len()),
    decreases members, members.len() + 1,
{
    let value = Value::Object(members);
    let inner = render_members(members);
    assert(render(value) == (seq!['{'] + inner) + seq!['}']);
    lemma_has_word_split(s, pos, seq!['{'] + inner, seq!['}']);
    lemma_has_word_split(s, pos, seq!['{'], inner);
    lemma_has_word_chars(s, pos, seq!['{']);
    assert(s[pos + 0] == '{');
    lemma_has_word_chars(s, pos + 1 + inner.len(), seq!['}']);
    assert(s[pos + 1 + inner.len() + 0] == '}');
    if members.len() == 0 {
        lemma_blank_none(s, pos + 1);
        assert(members =~= Seq::<(Seq<char>, Value)>::empty());
    } else {
        lemma_render_members_split(members, 1);
        assert(members.take(1).last() == members[0]);
        let first = render_member(members[0]);
        let rest = rest_members(members, 1);
        lemma_has_word_split(s, pos + 1, first, rest);
        lemma_has_word_chars(s, pos + 1, first);
        assert(first[0] == '"');
        assert(s[pos + 1 + 0] == first[0]);
        lemma_blank_none(s, pos + 1);
        assert(has_word(s, pos + 1, (first + rest) + seq!['}'])) by {
            lemma_has_word_split(s, pos + 1, first + rest, seq!['}']);
        }
        assert(members.take(0) =~= Seq::<(Seq<char>, Value)>::empty());
        lemma_members_reparse(s, pos + 1, members, 0);
    }
}

/// What follows some elements of an array, with the bracket that closes
/// it, begins with a comma or with that bracket.
pub proof fn lemma_rest_items_begins(items: Seq<Value>, k: int)
    ensures
        (rest_items(items, k) + seq![']'])[0] == ',' || (rest_items(items, k) + seq![']'])[0]
            == ']',
{
}

/// After the first `k` elements of a literal array, what follows them in
/// its text is read back as the rest of the array.
pub proof fn lemma_elements_reparse(s: Seq<char>, pos: int, items: Seq<Value>, k: int)
    requires
        1 <= k <= items.len(),
        all_literal(items),
        has_word(s, pos, rest_items(items, k) + seq![']']),
    ensures
        elements_at(s, pos, items.take(k)) == accept(
            Value::Array(items),
            rest_items(items, k).len() + 1,
        ),
    decreases items, items.len() - k,
{
    let text = rest_items(items, k) + seq![']'];
    lemma_has_word_chars(s, pos, text);
    assert(s[pos + 0] == text[0]);
    if k == items.len() {
        lemma_blank_none(s, pos);
        assert(items.take(k) =~= items);
    } else {
        let item = render(items[k]);
        let rest = rest_items(items, k + 1);
        assert(text =~= seq![',', ' '] + (item + (rest + seq![']'])));
        lemma_has_word_split(s, pos, seq![',', ' '], item + (rest + seq![']']));
        lemma_has_word_split(s, pos + 2, item, rest + seq![']']);
        lemma_has_word_chars(s, pos, seq![',', ' ']);
        assert(s[pos + 0] == ',');
        assert(s[pos + 1] == ' ');
        lemma_render_begins(items[k]);
        lemma_has_word_chars(s, pos + 2, item);
        assert(s[pos + 2 + 0] == item[0]);
        lemma_blank_none(s, pos);
        lemma_blank_one(s, pos + 1);
        let after = pos + 2 + item.len();
        lemma_rest_items_begins(items, k + 1);
        lemma_has_word_chars(s, after, rest + seq![']']);
        assert(s[after + 0] == (rest + seq![']'])[0]);
        lemma_reparse(s, pos + 2, items[k]);
        lemma_elements_reparse(s, after, items, k + 1);
        assert(items.take(k).push(items[k]) =~= items.take(k + 1));
        assert(rest_items(items, k).len() == 2 + item.len() + rest.len());
    }
}

/// What the parts of a member are read as: the key, the colon and the
/// space after it, and the value, after which no whitespace stands.
pub proof fn lemma_member_parts(
    s: Seq<char>,
    pos: int,
    name: Seq<char>,
    value: Value,
    tail: Seq<char>,
)
    requires
        well_quoted(name),
        is_literal(value),
        tail.len() > 0,
        !is_whitespace(tail[0]),
        has_word(s, pos, quoted(name) + (seq![':', ' '] + (render(value) + tail))),
    ensures
        string_at(s, pos) == accept(Value::Text(name), quoted(name).len()),
        blank(s, pos + quoted(name).len()) == 0,
        has_char(s, pos + quoted(name).len(), ':'),
        blank(s, pos + quoted(name).len() + 1) == 1,
        has_word(s, pos + quoted(name).len() + 2, render(value)),
        has_word(s, pos + quoted(name).len() + 2 + render(value).len(), tail),
        blank(s, pos + quoted(name).len() + 2 + render(value).len()) == 0,
        s[pos + quoted(name).len() + 2 + render(value).len()] == tail[0],
{
    let key = quoted(name);
    let inner = render(value);
    lemma_has_word_split(s, pos, key, seq![':', ' '] + (inner + tail));
    let colon = pos + key.len();
    lemma_has_word_split(s, colon, seq![':', ' '], inner + tail);
    let start = colon + 2;
    lemma_has_word_split(s, start, inner, tail);
    let after = start + inner.len();
    lemma_string_reparse(s, pos, name);
    lemma_has_word_chars(s, colon, seq![':', ' ']);
    assert(s[colon + 0] == ':');
    assert(s[colon + 1] == ' ');
    lemma_render_begins(value);
    lemma_has_word_chars(s, start, inner);
    assert(s[start + 0] == inner[0]);
    lemma_blank_none(s, colon);
    lemma_blank_one(s, colon + 1);
    lemma_has_word_chars(s, after, tail);
    assert(s[after + 0] == tail[0]);
    lemma_blank_none(s, after);
}

/// A comma, a space and a member: the space is the only whitespace, and a
/// key stands after it.
pub proof fn lemma_next_member(s: Seq<char>, pos: int, name: Seq<char>, more: Seq<char>)
    requires
        well_quoted(name),
        has_word(s, pos, seq![',', ' '] + (quoted(name) + more)),
    ensures
        has_char(s, pos, ','),
        blank(s, pos + 1) == 1,
        has_word(s, pos + 2, quoted(name) + more),
        string_at(s, pos + 2).result is Ok,
{
    lemma_has_word_split(s, pos, seq![',', ' '], quoted(name) + more);
    lemma_has_word_chars(s, pos, seq![',', ' ']);
    assert(s[pos + 0] == ',');
    assert(s[pos + 1] == ' ');
    lemma_has_word_split(s, pos + 2, quoted(name), more);
    lemma_has_word_chars(s, pos + 2, quoted(name));
    assert(s[pos + 2 + 0] == quoted(name)[0]);
    lemma_blank_one(s, pos + 1);
    lemma_string_reparse(s, pos + 2, name);
}

/// One member read, in terms of what its parts are read as: the members
/// are what follows the member, read with that member held, seen from its
/// key.
pub proof fn lemma_members_step(
    s: Seq<char>,
    pos: int,
    held: Seq<(Seq<char>, Value)>,
    name: Seq<char>,
    value: Value,
    key_len: nat,
    value_len: nat,
)
    requires
        string_at(s, pos) == accept(Value::Text(name), key_len),
        !has_key(held, name),
        blank(s, pos + key_len) == 0,
        has_char(s, pos + key_len, ':'),
        blank(s, pos + key_len + 1) == 1,
        value_at(s, pos + key_len + 2) == accept(value, value_len),
        blank(s, pos + key_len + 2 + value_len) == 0,
    ensures
        ({
            let after = pos + key_len + 2 + value_len;
            &&& has_char(s, after, ',') && blank(s, after + 1) == 1 && string_at(
                s,
                after + 2,
            ).result is Ok ==> members_at(s, pos, held) == shift(
                members_at(s, after + 2, held.push((name, value))),
                (after + 2 - pos) as nat,
            )
            &&& !has_char(s, after, ',') ==> members_at(s, pos, held) == shift(
                object_end_at(s, after, held.push((name, value))),
                (after - pos) as nat,
            )
        }),
{
}

/// The text of a member and of what follows it, as its parts in a row.
pub open spec fn member_text(name: Seq<char>, value: Value, tail: Seq<char>) -> Seq<char> {
    quoted(name) + (seq![':', ' '] + (render(value) + tail))
}

/// The text from the `k`-th member on, with the closing brace, is the text
/// of that member and of what follows it.
pub proof fn lemma_member_text(members: Seq<(Seq<char>, Value)>, k: int)
    requires
        0 <= k < members.len(),
    ensures
        (render_member(members[k]) + rest_members(members, k + 1)) + seq!['}'] == member_text(
            members[k].0,
            members[k].1,
            rest_members(members, k + 1) + seq!['}'],
        ),
        render_member(members[k]).len() == quoted(members[k].0).len() + 2 + render(
            members[k].1,
        ).len(),
        (rest_members(members, k + 1) + seq!['}']).len() > 0,
        !is_whitespace((rest_members(members, k + 1) + seq!['}'])[0]),
        !continues_number((rest_members(members, k + 1) + seq!['}'])[0]),
        k + 1 == members.len() ==> rest_members(members, k + 1) + seq!['}'] == seq!['}'],
        k + 1 < members.len() ==> rest_members(members, k + 1) + seq!['}'] == seq![',', ' ']
            + member_text(
            members[k + 1].0,
            members[k + 1].1,
            rest_members(members, k + 2) + seq!['}'],
        ),
        k + 1 < members.len() ==> rest_members(members, k + 1).len() == 2 + render_member(
            members[k + 1],
        ).len() + rest_members(members, k + 2).len(),
{
    let rest = rest_members(members, k + 1);
    assert((render_member(members[k]) + rest) + seq!['}'] =~= member_text(
        members[k].0,
        members[k].1,
        rest + seq!['}'],
    ));
    if k + 1 == members.len() {
        assert(rest + seq!['}'] =~= seq!['}']);
    } else {
        assert(rest + seq!['}'] =~= seq![',', ' '] + member_text(
            members[k + 1].0,
            members[k + 1].1,
            rest_members(members, k + 2) + seq!['}'],
        ));
    }
}

/// From the `k`-th member of a literal object on, its text is read back as
/// the rest of the object.
pub proof fn lemma_members_reparse(s: Seq<char>, pos: int, members: Seq<(Seq<char>, Value)>, k: int)
    requires
        0 <= k < members.len(),
        members_literal(members),
        has_word(s, pos, (render_member(members[k]) + rest_members(members, k + 1)) + seq!['}']),
    ensures
        members_at(s, pos, members.take(k)) == accept(
            Value::Object(members),
            render_member(members[k]).len() + rest_members(members, k + 1).len() + 1,
        ),
    decreases members, members.len() - k,
{
    let name = members[k].0;
    let value = members[k].1;
    let key_len = quoted(name).len();
    let value_len = render(value).len();
    let tail = rest_members(members, k + 1) + seq!['}'];
    let held = members.take(k);
    let start = pos + key_len + 2;
    let after = start + value_len;
    lemma_member_text(members, k);
    lemma_member_parts(s, pos, name, value, tail);
    assert(!has_key(held, name)) by {
        if has_key(held, name) {
            let i = choose|i: int| 0 <= i < held.len() && (#[trigger] held[i]).0 == name;
            assert(members[i].0 == members[k].0);
        }
    }
    lemma_reparse(s, start, value);
    lemma_members_step(s, pos, held, name, value, key_len, value_len);
    assert(held.push((name, value)) =~= members.take(k + 1));
    if k + 1 == members.len() {
        assert(members.take(k + 1) =~= members);
    } else {
        lemma_member_text(members, k + 1);
        lemma_next_member(
            s,
            after,
            members[k + 1].0,
            seq![':', ' '] + (render(members[k + 1].1) + (rest_members(members, k + 2) + seq![
                '}',
            ])),
        );
        lemma_members_reparse(s, after + 2, members, k + 1);
    }
}

/// Reading the canonical text of a document back yields the document: for
/// the value that stands at any place of any text, the document read from
/// the canonical text of that value is the same value, and the whole of
/// that text is read.
pub proof fn lemma_render_round_trip(s: Seq<char>, pos: int)
    ensures
        value_at(s, pos).result matches Ok(value) ==> document_at(render(value), 0) == accept(
            value,
            render(value).len(),
        ),
{
    match value_at(s, pos).result {
        Ok(value) => {
            lemma_parsed_is_literal(s, pos);
            lemma_literal_round_trip(value);
        },
        Err(_) => {},
    }
}

/// The same of a document, which may begin with whitespace: the document
/// read from the canonical text of what was read is what was read.
pub proof fn lemma_document_round_trip(s: Seq<char>, pos: int)
    ensures
        document_at(s, pos).result matches Ok(value) ==> document_at(render(value), 0) == accept(
            value,
            render(value).len(),
        ),
{
    lemma_render_round_trip(s, pos + blank(s, pos));
}

/// The canonical text of a value in the literal form, read as a document,
/// is that value.
pub proof fn lemma_literal_round_trip(value: Value)
    requires
        is_literal(value),
    ensures
        document_at(render(value), 0) == accept(value, render(value).len()),
{
    let text = render(value);
    lemma_render_begins(value);
    lemma_blank_none(text, 0);
    assert(text.subrange(0, text.len() as int) =~= text);
    lemma_reparse(text, 0, value);
}

} // verus!

//! Utilities for parsing raw json text.
use super::error::{JsonErrorType, JsonParseError};
use super::grammar::{
    array_at, array_end_at, blank, boolean_at, digits, document_at, elements_at, exponent_at,
    fraction_at,
    is_whitespace, lemma_blank_once, lemma_retreat_to_mark, members_at, null_at, number_at,
    object_at, object_end_at, retreat, shift, string_at, string_run, value_at, Parsed,
};
use super::path::{
    bracket_at, dot_at, index_at, is_name_char, lemma_step_consumes, map_at, property_at, steps_at,
    Scanned, Stepped,
};
use super::query::JsonQuery;
use super::token::{
    has_key, lemma_array_view, lemma_map_view, lemma_object_view, members_of, steps_of, values_of,
    Json, Number, Property, Step, Value,
};
use crate::lexer::{
    char_at, clip, col_after, has_char, has_word, is_digit, lemma_run_len_bounds, lemma_run_len_is, line_at, prefix, remaining,
    row_after, Cursor, Lexer,
};
use vstd::prelude::*;

verus! {

pub type JsonParseResult<T> = Result<T, (JsonErrorType, usize)>;

/// Whether what a production returned is what the grammar finds at `start`:
/// the same value, or the same kind of error, reported at the place where
/// the pointer was left.
pub open spec fn agrees(returned: JsonParseResult<Json>, parsed: Parsed, start: int) -> bool {
    match returned {
        Ok(json) => parsed.result == Ok::<Value, JsonErrorType>(json@),
        Err((kind, offset)) => parsed.result == Err::<Value, JsonErrorType>(kind) && offset == start
            + parsed.consumed,
    }
}

/// Whether `c` is one of the characters that may stand between tokens.
fn whitespace(c: &char) -> (b: bool)
    ensures
        b == is_whitespace(*c),
{
    *c == ' ' || *c == '\t' || *c == '\n' || *c == '\r'
}

/// Whether `c` is a decimal digit.
fn digit(c: &char) -> (b: bool)
    ensures
        b == is_digit(*c),
{
    '0' <= *c && *c <= '9'
}

#[derive(Debug)]
pub struct JsonParser(pub Lexer);

impl JsonParser {
    /// A parser at the start of `s`.
    pub fn new(s: &str) -> (parser: Self)
        ensures
            parser.0.stack@ == s@,
            parser.0.cursor == 0,
    {
        Self(Lexer::new(s))
    }

    /// Parses the document at the pointer: whitespace, then a value. A
    /// failure is reported with its line and column and the line of text it
    /// happened on; the pointer stays where the failure left it.
    #[inline(always)]
    pub fn parse(&mut self) -> (returned: Result<Json, JsonParseError>)
        ensures
            final(self).0.stack == old(self).0.stack,
            final(self).0.cursor == old(self).0.cursor + document_at(
                old(self).0.stack@,
                old(self).0.cursor as int,
            ).consumed,
            match returned {
                Ok(json) => document_at(old(self).0.stack@, old(self).0.cursor as int).result
                    == Ok::<Value, JsonErrorType>(json@),
                Err(error) => {
                    &&& document_at(old(self).0.stack@, old(self).0.cursor as int).result == Err::<
                        Value,
                        JsonErrorType,
                    >(error.error_type)
                    &&& error.position.row == clip(
                        row_after(prefix(final(self).0.stack@, final(self).0.cursor as int)) as int,
                    )
                    &&& error.position.col == clip(
                        col_after(prefix(final(self).0.stack@, final(self).0.cursor as int)) as int,
                    )
                    &&& error.line@ == line_at(final(self).0.stack@, final(self).0.cursor as int)
                },
            },
    {
        self.trim_front();
        match self.parse_any() {
            Ok(json) => Ok(json),
            Err((error_type, cursor)) => {
                let position = self.0.position(cursor);
                Err(JsonParseError { line: self.0.line(cursor), position, error_type })
            },
        }
    }

    /// try parsing any token.
    pub fn parse_any(&mut self) -> (returned: JsonParseResult<Json>)
        ensures
            final(self).0.stack == old(self).0.stack,
            final(self).0.cursor == old(self).0.cursor + value_at(
                old(self).0.stack@,
                old(self).0.cursor as int,
            ).consumed,
            agrees(
                returned,
                value_at(old(self).0.stack@, old(self).0.cursor as int),
                old(self).0.cursor as int,
            ),
        decreases remaining(old(self).0.stack@, old(self).0.cursor as int), 1int,
    {
        let next: Option<char> = match self.0.peek() {
            Some(c) => Some(*c),
            None => None,
        };
        match next {
            Some(c) => {
                if c == '-' || ('0' <= c && c <= '9') {
                    self.parse_number()
                } else if c == 't' || c == 'f' {
                    self.parse_boolean()
                } else if c == '"' {
                    self.parse_qstring()
                } else if c == 'n' {
                    self.parse_null()
                } else if c == '[' {
                    self.parse_array()
                } else if c == '{' {
                    self.parse_object()
                } else {
                    Err(self.error(JsonErrorType::SyntaxError))
                }
            },
            None => Err(self.error(JsonErrorType::SyntaxError)),
        }
    }

    /// try parsing [`Json::Null`](Json::Null).
    pub fn parse_null(&mut self) -> (returned: JsonParseResult<Json>)
        ensures
            final(self).0.stack == old(self).0.stack,
            final(self).0.cursor == old(self).0.cursor + null_at(
                old(self).0.stack@,
                old(self).0.cursor as int,
            ).consumed,
            agrees(
                returned,
                null_at(old(self).0.stack@, old(self).0.cursor as int),
                old(self).0.cursor as int,
            ),
    {
        proof {
            reveal_strlit("null");
            assert("null"@ =~= seq!['n', 'u', 'l', 'l']);
        }
        match self.0.consume_string("null") {
            Some(_) => Ok(Json::Null),
            None => Err(self.error(JsonErrorType::SyntaxError)),
        }
    }

    /// try parsing [`Json::Boolean`](Json::Boolean).
    pub fn parse_boolean(&mut self) -> (returned: JsonParseResult<Json>)
        ensures
            final(self).0.stack == old(self).0.stack,
            final(self).0.cursor == old(self).0.cursor + boolean_at(
                old(self).0.stack@,
                old(self).0.cursor as int,
            ).consumed,
            agrees(
                returned,
                boolean_at(old(self).0.stack@, old(self).0.cursor as int),
                old(self).0.cursor as int,
            ),
    {
        proof {
            reveal_strlit("true");
            reveal_strlit("false");
            assert("true"@ =~= seq!['t', 'r', 'u', 'e']);
            assert("false"@ =~= seq!['f', 'a', 'l', 's', 'e']);
        }
        if self.0.consume_string("true").is_some() {
            Ok(Json::Boolean(true))
        } else if self.0.consume_string("false").is_some() {
            Ok(Json::Boolean(false))
        } else {
            Err(self.error(JsonErrorType::SyntaxError))
        }
    }

    /// try parsing [`Json::Number`](Json::Number).
    pub fn parse_number(&mut self) -> (returned: JsonParseResult<Json>)
        ensures
            final(self).0.stack == old(self).0.stack,
            final(self).0.cursor == old(self).0.cursor + number_at(
                old(self).0.stack@,
                old(self).0.cursor as int,
            ).consumed,
            agrees(
                returned,
                number_at(old(self).0.stack@, old(self).0.cursor as int),
                old(self).0.cursor as int,
            ),
    {
        let start: usize = self.0.cursor;
        let negative: bool = self.0.consume_byte('-').is_some();
        let after_sign: usize = self.0.cursor;
        let integer = self.read_digits();
        if self.0.cursor == after_sign {
            self.0.cursor = start;
            return Err(self.error(JsonErrorType::SyntaxError));
        }
        let fraction = self.parse_fraction();
        let (exponent_negative, exponent) = self.parse_exponent();
        Ok(Json::Number(Number { negative, integer, fraction, exponent_negative, exponent }))
    }

    /// try parsing [`Json::QString`](Json::QString).
    pub fn parse_qstring(&mut self) -> (returned: JsonParseResult<Json>)
        ensures
            final(self).0.stack == old(self).0.stack,
            final(self).0.cursor == old(self).0.cursor + string_at(
                old(self).0.stack@,
                old(self).0.cursor as int,
            ).consumed,
            agrees(
                returned,
                string_at(old(self).0.stack@, old(self).0.cursor as int),
                old(self).0.cursor as int,
            ),
    {
        match self.parse_byte('"') {
            Err(e) => {
                return Err(e);
            },
            Ok(_) => {},
        }
        let ghost s = self.0.stack@;
        let start: usize = self.0.cursor;
        let mut escaped: bool = false;
        let mut string = String::new();
        while self.0.cursor < self.0.stack.len() && !(self.0.stack[self.0.cursor as usize] == '"'
            && !escaped)
            invariant
                self.0.stack == old(self).0.stack,
                s == self.0.stack@,
                start <= self.0.cursor <= self.0.stack.len(),
                string@ == s.subrange(start as int, self.0.cursor as int),
                string_run(s, start as int, false) == (self.0.cursor - start) + string_run(
                    s,
                    self.0.cursor as int,
                    escaped,
                ),
            decreases self.0.stack.len() - self.0.cursor,
        {
            let c: char = self.0.stack[self.0.cursor];
            escaped = c == '\\' && !escaped;
            string.push(c);
            self.0.cursor += 1;
            assert(string@ =~= s.subrange(start as int, self.0.cursor as int));
        }
        match self.parse_byte('"') {
            Err(e) => Err(e),
            Ok(_) => Ok(Json::QString(string)),
        }
    }

    /// try parsing [`Json::Array`](Json::Array).
    pub fn parse_array(&mut self) -> (returned: JsonParseResult<Json>)
        ensures
            final(self).0.stack == old(self).0.stack,
            final(self).0.cursor == old(self).0.cursor + array_at(
                old(self).0.stack@,
                old(self).0.cursor as int,
            ).consumed,
            agrees(
                returned,
                array_at(old(self).0.stack@, old(self).0.cursor as int),
                old(self).0.cursor as int,
            ),
        decreases remaining(old(self).0.stack@, old(self).0.cursor as int), 0int,
    {
        match self.parse_byte('[') {
            Err(e) => {
                return Err(e);
            },
            Ok(_) => {},
        }
        let mut array: Vec<Json> = Vec::new();
        self.trim_front();
        if self.0.consume_byte(']').is_some() {
            let whole = Json::Array(array);
            proof {
                lemma_array_view(whole);
                assert(values_of(whole->Array_0@) =~= Seq::<Value>::empty());
            }
            return Ok(whole);
        }
        match self.parse_any() {
            Ok(token) => {
                array.push(token);
                assert(values_of(array@) =~= seq![token@]);
                self.parse_elements(array)
            },
            Err(e) => Err(e),
        }
    }

    /// What follows the elements `array` of an array: any number of commas
    /// with an element each, and the end of the array.
    fn parse_elements(&mut self, array: Vec<Json>) -> (returned: JsonParseResult<Json>)
        ensures
            final(self).0.stack == old(self).0.stack,
            final(self).0.cursor == old(self).0.cursor + elements_at(
                old(self).0.stack@,
                old(self).0.cursor as int,
                values_of(array@),
            ).consumed,
            agrees(
                returned,
                elements_at(old(self).0.stack@, old(self).0.cursor as int, values_of(array@)),
                old(self).0.cursor as int,
            ),
        decreases remaining(old(self).0.stack@, old(self).0.cursor as int), 3int,
    {
        let ghost s = self.0.stack@;
        let ghost pos = self.0.cursor as int;
        let ghost first = values_of(array@);
        let mut elements = array;
        loop
            invariant
                self.0.stack == old(self).0.stack,
                s == self.0.stack@,
                pos == old(self).0.cursor,
                pos <= self.0.cursor,
                first == values_of(array@),
                elements_at(s, pos, first) == shift(
                    elements_at(s, self.0.cursor as int, values_of(elements@)),
                    (self.0.cursor - pos) as nat,
                ),
            decreases remaining(s, self.0.cursor as int),
        {
            let ghost head = self.0.cursor as int;
            let ghost items = values_of(elements@);
            match self.next_element() {
                None => {
                    proof {
                        lemma_blank_once(s, head);
                        assert(elements_at(s, head, items) == array_end_at(s, head, items));
                    }
                    return self.end_array(elements);
                },
                Some(Ok(token)) => {
                    proof {
                        assert(values_of(elements@.push(token)) =~= items.push(token@));
                        assert(elements_at(s, head, items) == shift(
                            elements_at(s, self.0.cursor as int, items.push(token@)),
                            (self.0.cursor - head) as nat,
                        ));
                    }
                    elements.push(token);
                },
                Some(Err(e)) => {
                    return Err(e);
                },
            }
        }
    }

    /// The next element of an array, if a comma announces one: nothing
    /// where no comma follows (the pointer is then past the whitespace), the
    /// element that follows the comma, its error where it begins and fails,
    /// or a trailing comma error with the pointer on the comma where none
    /// begins.
    fn next_element(&mut self) -> (returned: Option<JsonParseResult<Json>>)
        ensures
            final(self).0.stack == old(self).0.stack,
            ({
                let s = old(self).0.stack@;
                let pos = old(self).0.cursor as int;
                let comma = pos + blank(s, pos);
                let start = comma + 1 + blank(s, comma + 1);
                match returned {
                    None => !has_char(s, comma, ',') && final(self).0.cursor == comma,
                    Some(Ok(token)) => {
                        &&& has_char(s, comma, ',')
                        &&& value_at(s, start).result == Ok::<Value, JsonErrorType>(token@)
                        &&& final(self).0.cursor == start + value_at(s, start).consumed
                    },
                    Some(Err(e)) => {
                        &&& has_char(s, comma, ',')
                        &&& value_at(s, start).result is Err
                        &&& e.1 == final(self).0.cursor
                        &&& if value_at(s, start).consumed == 0 {
                            final(self).0.cursor == comma && e.0
                                == JsonErrorType::TrailingCommaError
                        } else {
                            final(self).0.cursor == start + value_at(s, start).consumed
                                && value_at(s, start).result == Err::<Value, JsonErrorType>(e.0)
                        }
                    },
                }
            }),
        decreases remaining(old(self).0.stack@, old(self).0.cursor as int), 2int,
    {
        self.trim_front();
        if self.parse_byte(',').is_err() {
            return None;
        }
        let ghost comma = self.0.cursor - 1;
        self.trim_front();
        let start: usize = self.0.cursor;
        match self.parse_any() {
            Ok(token) => Some(Ok(token)),
            Err(e) => {
                if self.0.cursor == start {
                    self.rewind_to_comma(Ghost(comma), start);
                    Some(Err(self.error(JsonErrorType::TrailingCommaError)))
                } else {
                    Some(Err(e))
                }
            },
        }
    }

    /// Moves the pointer back from wherever it is to the comma at `comma`,
    /// given the place `start` where the whitespace after that comma ends.
    fn rewind_to_comma(&mut self, Ghost(comma): Ghost<int>, start: usize)
        requires
            has_char(old(self).0.stack@, comma, ','),
            start == comma + 1 + blank(old(self).0.stack@, comma + 1),
        ensures
            final(self).0.stack == old(self).0.stack,
            final(self).0.cursor == comma,
    {
        proof {
            lemma_run_len_bounds(self.0.stack@, comma + 1, |c: char| is_whitespace(c));
            lemma_retreat_to_mark(self.0.stack@, comma, start - 1);
        }
        self.0.cursor = start;
        self.untrim_front();
    }

    /// try parsing [`Json::Object`](Json::Object).
    pub fn parse_object(&mut self) -> (returned: JsonParseResult<Json>)
        ensures
            final(self).0.stack == old(self).0.stack,
            final(self).0.cursor == old(self).0.cursor + object_at(
                old(self).0.stack@,
                old(self).0.cursor as int,
            ).consumed,
            agrees(
                returned,
                object_at(old(self).0.stack@, old(self).0.cursor as int),
                old(self).0.cursor as int,
            ),
        decreases remaining(old(self).0.stack@, old(self).0.cursor as int), 0int,
    {
        match self.parse_byte('{') {
            Err(e) => {
                return Err(e);
            },
            Ok(_) => {},
        }
        self.trim_front();
        let members: Vec<(String, Json)> = Vec::new();
        assert(members_of(members@) =~= Seq::<(Seq<char>, Value)>::empty());
        if self.0.consume_byte('}').is_some() {
            let whole = Json::Object(members);
            proof {
                lemma_object_view(whole);
            }
            return Ok(whole);
        }
        self.parse_members(members)
    }

    /// The members of an object that holds `members` already, from the key
    /// at the pointer on, and the end of the object.
    fn parse_members(&mut self, members: Vec<(String, Json)>) -> (returned: JsonParseResult<Json>)
        ensures
            final(self).0.stack == old(self).0.stack,
            final(self).0.cursor == old(self).0.cursor + members_at(
                old(self).0.stack@,
                old(self).0.cursor as int,
                members_of(members@),
            ).consumed,
            agrees(
                returned,
                members_at(old(self).0.stack@, old(self).0.cursor as int, members_of(members@)),
                old(self).0.cursor as int,
            ),
        decreases remaining(old(self).0.stack@, old(self).0.cursor as int), 3int,
    {
        let ghost s = self.0.stack@;
        let ghost pos = self.0.cursor as int;
        let ghost first = members_of(members@);
        let mut held_members = members;
        let mut key_start: usize = self.0.cursor;
        let mut json_key = self.parse_qstring();
        loop
            invariant
                self.0.stack == old(self).0.stack,
                s == self.0.stack@,
                pos == old(self).0.cursor,
                pos <= key_start,
                first == members_of(members@),
                self.0.cursor == key_start + string_at(s, key_start as int).consumed,
                agrees(json_key, string_at(s, key_start as int), key_start as int),
                members_at(s, pos, first) == shift(
                    members_at(s, key_start as int, members_of(held_members@)),
                    (key_start - pos) as nat,
                ),
            decreases remaining(s, key_start as int),
        {
            let ghost held = members_of(held_members@);
            let key: String = match json_key {
                Ok(Json::QString(key)) => key,
                _ => {
                    return Err(self.error(JsonErrorType::SyntaxError));
                },
            };
            if Self::contains_key(&held_members, &key) {
                self.0.cursor = key_start;
                return Err(self.error(JsonErrorType::DuplicateKeyError));
            }
            match self.next_member(Ghost(key_start as int), Ghost(held), key, &mut held_members) {
                Some(e) => {
                    return e;
                },
                None => {},
            }
            key_start = self.0.cursor;
            json_key = self.parse_qstring();
        }
    }

    /// What follows the key of a member: the colon and the value, which are
    /// added to `members` under `key`, and then the end of the object or a
    /// comma. Returns what the object amounts to where it ends here, by its
    /// closing brace or by an error; returns nothing where a comma and then
    /// a key follow, and leaves the pointer at that key.
    fn next_member(
        &mut self,
        Ghost(key_start): Ghost<int>,
        Ghost(held): Ghost<Seq<(Seq<char>, Value)>>,
        key: String,
        members: &mut Vec<(String, Json)>,
    ) -> (returned: Option<JsonParseResult<Json>>)
        requires
            0 <= key_start,
            string_at(old(self).0.stack@, key_start).result == Ok::<Value, JsonErrorType>(
                Value::Text(key@),
            ),
            old(self).0.cursor == key_start + string_at(old(self).0.stack@, key_start).consumed,
            held == members_of(old(members)@),
            !has_key(held, key@),
        ensures
            final(self).0.stack == old(self).0.stack,
            ({
                let s = old(self).0.stack@;
                let whole = members_at(s, key_start, held);
                match returned {
                    Some(ended) => {
                        &&& final(self).0.cursor == key_start + whole.consumed
                        &&& agrees(ended, whole, key_start)
                    },
                    None => {
                        &&& key_start < final(self).0.cursor
                        &&& string_at(s, final(self).0.cursor as int).result is Ok
                        &&& whole == shift(
                            members_at(
                                s,
                                final(self).0.cursor as int,
                                members_of(final(members)@),
                            ),
                            (final(self).0.cursor - key_start) as nat,
                        )
                    },
                }
            }),
        decreases remaining(old(self).0.stack@, key_start), 2int,
    {
        let ghost s = self.0.stack@;
        self.trim_front();
        match self.parse_byte(':') {
            Err(e) => {
                return Some(Err(e));
            },
            Ok(_) => {},
        }
        self.trim_front();
        let token: Json = match self.parse_any() {
            Err(e) => {
                return Some(Err(e));
            },
            Ok(token) => token,
        };
        proof {
            assert(members_of(members@.push((key, token))) =~= held.push((key@, token@)));
        }
        members.push((key, token));
        let ghost after = self.0.cursor as int;
        self.trim_front();
        if self.parse_byte(',').is_err() {
            proof {
                lemma_blank_once(s, after);
            }
            let rest: Vec<(String, Json)> = Self::take(members);
            return Some(self.end_object(rest));
        }
        let ghost comma = self.0.cursor - 1;
        self.trim_front();
        let start: usize = self.0.cursor;
        let next_key = self.parse_qstring();
        if next_key.is_err() {
            if self.0.cursor == start {
                self.rewind_to_comma(Ghost(comma), start);
                return Some(Err(self.error(JsonErrorType::TrailingCommaError)));
            }
            return Some(Err(self.error(JsonErrorType::SyntaxError)));
        }
        self.0.cursor = start;
        None
    }

    /// Takes the members out of `members`, which is left empty.
    fn take(members: &mut Vec<(String, Json)>) -> (taken: Vec<(String, Json)>)
        ensures
            taken@ == old(members)@,
    {
        let mut taken: Vec<(String, Json)> = Vec::new();
        taken.append(members);
        assert(taken@ =~= old(members)@);
        taken
    }

    /// Consumes the run of digits at the pointer and returns it.
    fn read_digits(&mut self) -> (run: String)
        ensures
            final(self).0.stack == old(self).0.stack,
            final(self).0.cursor == old(self).0.cursor + digits(
                old(self).0.stack@,
                old(self).0.cursor as int,
            ),
            run@.len() == digits(old(self).0.stack@, old(self).0.cursor as int),
            run@.len() > 0 ==> run@ == old(self).0.stack@.subrange(
                old(self).0.cursor as int,
                final(self).0.cursor as int,
            ),
    {
        let ghost s = self.0.stack@;
        let start: usize = self.0.cursor;
        let run = self.0.consume_while(digit);
        proof {
            let pred = |c: char| is_digit(c);
            let n = (self.0.cursor - start) as nat;
            assert forall|i: int| start <= i < start + n implies pred(#[trigger] s[i]) by {}
            if start <= s.len() {
                lemma_run_len_is(s, start as int, n, pred);
            }
        }
        run
    }

    /// The digits of the decimal part of a number, if one stands at the
    /// pointer; nothing is read where there is none.
    fn parse_fraction(&mut self) -> (found: String)
        ensures
            final(self).0.stack == old(self).0.stack,
            final(self).0.cursor == old(self).0.cursor + fraction_at(
                old(self).0.stack@,
                old(self).0.cursor as int,
            ).consumed,
            found@ == fraction_at(old(self).0.stack@, old(self).0.cursor as int).digits,
    {
        let start: usize = self.0.cursor;
        if self.0.consume_byte('.').is_none() {
            return String::new();
        }
        let run = self.read_digits();
        if self.0.cursor == start + 1 {
            self.0.cursor = start;
            return String::new();
        }
        run
    }

    /// The sign and the digits of the exponent part of a number, if one
    /// stands at the pointer; nothing is read where there is none.
    fn parse_exponent(&mut self) -> (found: (bool, String))
        ensures
            final(self).0.stack == old(self).0.stack,
            final(self).0.cursor == old(self).0.cursor + exponent_at(
                old(self).0.stack@,
                old(self).0.cursor as int,
            ).consumed,
            found.0 == exponent_at(old(self).0.stack@, old(self).0.cursor as int).negative,
            found.1@ == exponent_at(old(self).0.stack@, old(self).0.cursor as int).digits,
    {
        let start: usize = self.0.cursor;
        if self.0.consume_byte('e').is_none() && self.0.consume_byte('E').is_none() {
            return (false, String::new());
        }
        let negative: bool = self.0.consume_byte('-').is_some();
        if !negative {
            let _ = self.0.consume_byte('+');
        }
        let after_sign: usize = self.0.cursor;
        let run = self.read_digits();
        if self.0.cursor == after_sign {
            self.0.cursor = start;
            return (false, String::new());
        }
        (negative, run)
    }

    /// Whether one of `members` is named `key`.
    fn contains_key(members: &Vec<(String, Json)>, key: &String) -> (found: bool)
        ensures
            found == has_key(members_of(members@), key@),
    {
        let mut i: usize = 0;
        while i < members.len()
            invariant
                i <= members.len(),
                forall|k: int| 0 <= k < i ==> (#[trigger] members_of(members@)[k]).0 != key@,
            decreases members.len() - i,
        {
            if members[i].0 == *key {
                assert(members_of(members@)[i as int].0 == key@);
                return true;
            }
            i += 1;
        }
        false
    }

    /// The end of an array that holds `array`: whitespace and `]`.
    fn end_array(&mut self, array: Vec<Json>) -> (returned: JsonParseResult<Json>)
        ensures
            final(self).0.stack == old(self).0.stack,
            final(self).0.cursor == old(self).0.cursor + array_end_at(
                old(self).0.stack@,
                old(self).0.cursor as int,
                values_of(array@),
            ).consumed,
            agrees(
                returned,
                array_end_at(old(self).0.stack@, old(self).0.cursor as int, values_of(array@)),
                old(self).0.cursor as int,
            ),
    {
        self.trim_front();
        match self.parse_byte(']') {
            Err(e) => Err(e),
            Ok(_) => {
                let whole = Json::Array(array);
                proof {
                    lemma_array_view(whole);
                }
                Ok(whole)
            },
        }
    }

    /// The end of an object that holds `members`: whitespace and `}`.
    fn end_object(&mut self, members: Vec<(String, Json)>) -> (returned: JsonParseResult<Json>)
        ensures
            final(self).0.stack == old(self).0.stack,
            final(self).0.cursor == old(self).0.cursor + object_end_at(
                old(self).0.stack@,
                old(self).0.cursor as int,
                members_of(members@),
            ).consumed,
            agrees(
                returned,
                object_end_at(old(self).0.stack@, old(self).0.cursor as int, members_of(members@)),
                old(self).0.cursor as int,
            ),
    {
        self.trim_front();
        match self.parse_byte('}') {
            Err(e) => Err(e),
            Ok(_) => {
                let whole = Json::Object(members);
                proof {
                    lemma_object_view(whole);
                }
                Ok(whole)
            },
        }
    }

    /// Moves the pointer over the whitespace it stands on.
    #[inline]
    fn trim_front(&mut self)
        ensures
            final(self).0.stack == old(self).0.stack,
            final(self).0.cursor == old(self).0.cursor + blank(
                old(self).0.stack@,
                old(self).0.cursor as int,
            ),
    {
        let ghost s = self.0.stack@;
        let start: usize = self.0.cursor;
        let _ = self.0.consume_while(whitespace);
        proof {
            let pred = |c: char| is_whitespace(c);
            let n = (self.0.cursor - start) as nat;
            assert forall|i: int| start <= i < start + n implies pred(#[trigger] s[i]) by {}
            if start <= s.len() {
                lemma_run_len_is(s, start as int, n, pred);
            }
        }
    }

    /// This is used only in case of erroring out (backing up cursor to error position).
    #[inline]
    fn untrim_front(&mut self)
        requires
            0 < old(self).0.cursor <= old(self).0.stack.len(),
        ensures
            final(self).0.stack == old(self).0.stack,
            final(self).0.cursor == retreat(old(self).0.stack@, old(self).0.cursor - 1),
    {
        self.0.cursor -= 1;
        while self.0.cursor > 0 && self.0.cursor < self.0.stack.len() && whitespace(
            &self.0.stack[self.0.cursor],
        )
            invariant
                self.0.stack == old(self).0.stack,
                self.0.cursor < old(self).0.cursor,
                retreat(self.0.stack@, self.0.cursor as int) == retreat(
                    old(self).0.stack@,
                    old(self).0.cursor - 1,
                ),
            decreases self.0.cursor,
        {
            self.0.cursor -= 1;
        }
    }

    /// Consumes `c`, or reports a syntax error at the pointer.
    #[inline]
    fn parse_byte(&mut self, c: char) -> (returned: JsonParseResult<()>)
        ensures
            final(self).0.stack == old(self).0.stack,
            has_char(old(self).0.stack@, old(self).0.cursor as int, c) ==> returned is Ok
                && final(self).0.cursor == old(self).0.cursor + 1,
            !has_char(old(self).0.stack@, old(self).0.cursor as int, c) ==> returned == Err::<
                (),
                (JsonErrorType, usize),
            >((JsonErrorType::SyntaxError, old(self).0.cursor)) && final(self).0.cursor == old(
                self,
            ).0.cursor,
    {
        match self.0.consume_byte(c) {
            Some(_) => Ok(()),
            None => Err(self.error(JsonErrorType::SyntaxError)),
        }
    }

    /// An error of the given kind at the pointer.
    #[inline(always)]
    fn error(&self, error_type: JsonErrorType) -> (e: (JsonErrorType, Cursor))
        ensures
            e == (error_type, self.0.cursor),
    {
        (error_type, self.0.cursor)
    }
}

/// Whether what a production of the query grammar returned is what the
/// grammar finds: the same step, or nothing.
pub open spec fn found_is(found: Option<Property>, scanned: Scanned) -> bool {
    match found {
        Some(property) => scanned.found == Some(property@),
        None => scanned.found is None,
    }
}

/// Whether what the query parser returned at a place is what the grammar
/// finds there: nothing at the end of the text, the same step, or an error
/// at the same offset (the largest `usize` where the offset does not fit).
pub open spec fn stepped_is(returned: Option<Result<Property, usize>>, stepped: Stepped) -> bool {
    match returned {
        None => stepped.outcome is None,
        Some(Ok(property)) => stepped.outcome == Some(Ok::<Step, int>(property@)),
        Some(Err(offset)) => stepped.outcome matches Some(Err(at)) && offset == clip(at),
    }
}

/// Whether `c` may stand in a name after a dot.
fn name_char(c: &char) -> (b: bool)
    ensures
        b == is_name_char(*c),
{
    *c != '.' && *c != '[' && *c != ')'
}

/// Whether `c` is no quote.
fn unquoted(c: &char) -> (b: bool)
    ensures
        b == (*c != '"'),
{
    *c != '"'
}

pub struct PropertyParser(pub Lexer);

impl PropertyParser {
    /// A parser at the start of the query `s`.
    pub fn new(s: &str) -> (parser: Self)
        ensures
            parser.0.stack@ == s@,
            parser.0.cursor == 0,
    {
        Self(Lexer::new(s))
    }

    /// The next step of the query: nothing at the end of the text, else the
    /// step at the pointer or the offset of a syntax error. An error leaves
    /// the pointer where it was.
    pub fn parse_any(&mut self) -> (returned: Option<Result<Property, usize>>)
        ensures
            final(self).0.stack == old(self).0.stack,
            final(self).0.cursor == old(self).0.cursor + property_at(
                old(self).0.stack@,
                old(self).0.cursor as int,
            ).consumed,
            stepped_is(returned, property_at(old(self).0.stack@, old(self).0.cursor as int)),
        decreases remaining(old(self).0.stack@, old(self).0.cursor as int), 1int,
    {
        let ghost s = self.0.stack@;
        let ghost pos = self.0.cursor as int;
        let start: usize = self.0.cursor;
        let next: Option<char> = match self.0.peek() {
            Some(c) => Some(*c),
            None => None,
        };
        let maybe_property: Option<Property> = match next {
            None => {
                return None;
            },
            Some(c) => {
                assert(char_at(s, pos) == Some(c));
                assert(self.0.cursor < self.0.stack.len());
                if c == '.' {
                    proof {
                        reveal_strlit(".keys()");
                        reveal_strlit(".values()");
                        reveal_strlit(".length()");
                        assert(".keys()"@ =~= seq!['.', 'k', 'e', 'y', 's', '(', ')']);
                        assert(".values()"@ =~= seq!['.', 'v', 'a', 'l', 'u', 'e', 's', '(', ')']);
                        assert(".length()"@ =~= seq!['.', 'l', 'e', 'n', 'g', 't', 'h', '(', ')']);
                    }
                    match self.try_consume(".keys()", Property::Keys) {
                        Some(property) => Some(property),
                        None => match self.try_consume(".values()", Property::Values) {
                            Some(property) => Some(property),
                            None => match self.try_consume(".length()", Property::Length) {
                                Some(property) => Some(property),
                                None => match self.scan_map() {
                                    Some(property) => Some(property),
                                    None => {
                                        self.0.cursor = start;
                                        self.scan_dot()
                                    },
                                },
                            },
                        },
                    }
                } else if c == '[' {
                    let after: Option<char> = match self.0.peek_at(self.0.cursor + 1) {
                        Some(d) => Some(*d),
                        None => None,
                    };
                    match after {
                        Some(d) => {
                            if d == '"' {
                                self.scan_bracket()
                            } else if d == '-' || ('0' <= d && d <= '9') {
                                self.scan_index()
                            } else {
                                return Some(Err(self.0.cursor.saturating_add(2)));
                            }
                        },
                        None => {
                            return Some(Err(self.0.cursor.saturating_add(2)));
                        },
                    }
                } else {
                    return Some(Err(self.0.cursor + 1));
                }
            },
        };
        match maybe_property {
            Some(property) => Some(Ok(property)),
            None => {
                let offset: usize = self.0.cursor;
                self.0.cursor = start;
                Some(Err(offset))
            },
        }
    }

    /// try parsing [`Property::Dot`](Property::Dot). Nothing is read
    /// where it fails.
    #[inline(always)]
    pub fn parse_dot_prop(&mut self) -> (found: Option<Property>)
        ensures
            final(self).0.stack == old(self).0.stack,
            final(self).0.cursor == old(self).0.cursor + dot_at(
                old(self).0.stack@,
                old(self).0.cursor as int,
            ).consumed(),
            found_is(found, dot_at(old(self).0.stack@, old(self).0.cursor as int)),
    {
        let start: usize = self.0.cursor;
        let found = self.scan_dot();
        if found.is_none() {
            self.0.cursor = start;
        }
        found
    }

    /// try parsing [`Property::Bracket`](Property::Bracket). Nothing is read
    /// where it fails.
    #[inline(always)]
    pub fn parse_bracket_prop(&mut self) -> (found: Option<Property>)
        ensures
            final(self).0.stack == old(self).0.stack,
            final(self).0.cursor == old(self).0.cursor + bracket_at(
                old(self).0.stack@,
                old(self).0.cursor as int,
            ).consumed(),
            found_is(found, bracket_at(old(self).0.stack@, old(self).0.cursor as int)),
    {
        let start: usize = self.0.cursor;
        let found = self.scan_bracket();
        if found.is_none() {
            self.0.cursor = start;
        }
        found
    }

    /// try parsing [`Property::Index`](Property::Index). Nothing is read
    /// where it fails.
    #[inline(always)]
    pub fn parse_array_index(&mut self) -> (found: Option<Property>)
        ensures
            final(self).0.stack == old(self).0.stack,
            final(self).0.cursor == old(self).0.cursor + index_at(
                old(self).0.stack@,
                old(self).0.cursor as int,
            ).consumed(),
            found_is(found, index_at(old(self).0.stack@, old(self).0.cursor as int)),
    {
        let start: usize = self.0.cursor;
        let found = self.scan_index();
        if found.is_none() {
            self.0.cursor = start;
        }
        found
    }

    /// try parsing [`Property::MapEach`](Property::MapEach). Nothing is read
    /// where it fails.
    #[inline(always)]
    pub fn parse_map_func(&mut self) -> (found: Option<Property>)
        ensures
            final(self).0.stack == old(self).0.stack,
            final(self).0.cursor == old(self).0.cursor + map_at(
                old(self).0.stack@,
                old(self).0.cursor as int,
            ).consumed(),
            found_is(found, map_at(old(self).0.stack@, old(self).0.cursor as int)),
    {
        let start: usize = self.0.cursor;
        let found = self.scan_map();
        if found.is_none() {
            self.0.cursor = start;
        }
        found
    }

    /// Reads a name after a dot; the pointer stays where the attempt stopped.
    fn scan_dot(&mut self) -> (found: Option<Property>)
        ensures
            final(self).0.stack == old(self).0.stack,
            final(self).0.cursor == old(self).0.cursor + dot_at(
                old(self).0.stack@,
                old(self).0.cursor as int,
            ).reached,
            found_is(found, dot_at(old(self).0.stack@, old(self).0.cursor as int)),
    {
        let ghost s = self.0.stack@;
        if self.0.consume_byte('.').is_none() {
            return None;
        }
        let start: usize = self.0.cursor;
        let prop = self.0.consume_while(name_char);
        proof {
            let pred = |c: char| is_name_char(c);
            let n = (self.0.cursor - start) as nat;
            assert forall|i: int| start <= i < start + n implies pred(#[trigger] s[i]) by {}
            lemma_run_len_is(s, start as int, n, pred);
        }
        if self.0.cursor == start {
            return None;
        }
        Some(Property::Dot(prop))
    }

    /// Reads a name in brackets; the pointer stays where the attempt stopped.
    fn scan_bracket(&mut self) -> (found: Option<Property>)
        ensures
            final(self).0.stack == old(self).0.stack,
            final(self).0.cursor == old(self).0.cursor + bracket_at(
                old(self).0.stack@,
                old(self).0.cursor as int,
            ).reached,
            found_is(found, bracket_at(old(self).0.stack@, old(self).0.cursor as int)),
    {
        let ghost s = self.0.stack@;
        proof {
            reveal_strlit("[\"");
            reveal_strlit("\"]");
            assert("[\""@ =~= seq!['[', '"']);
            assert("\"]"@ =~= seq!['"', ']']);
        }
        if self.0.consume_string("[\"").is_none() {
            return None;
        }
        let start: usize = self.0.cursor;
        let prop = self.0.consume_while(unquoted);
        proof {
            let pred = |c: char| c != '"';
            let n = (self.0.cursor - start) as nat;
            assert forall|i: int| start <= i < start + n implies pred(#[trigger] s[i]) by {}
            lemma_run_len_is(s, start as int, n, pred);
        }
        if self.0.cursor == start {
            return None;
        }
        match self.0.consume_string("\"]") {
            Some(_) => Some(Property::Bracket(prop)),
            None => None,
        }
    }

    /// Reads an index in brackets; the pointer stays where the attempt
    /// stopped.
    fn scan_index(&mut self) -> (found: Option<Property>)
        ensures
            final(self).0.stack == old(self).0.stack,
            final(self).0.cursor == old(self).0.cursor + index_at(
                old(self).0.stack@,
                old(self).0.cursor as int,
            ).reached,
            found_is(found, index_at(old(self).0.stack@, old(self).0.cursor as int)),
    {
        if self.0.consume_byte('[').is_none() {
            return None;
        }
        match self.0.consume_int() {
            Some(num) => match self.0.consume_byte(']') {
                Some(_) => Some(Property::Index(num)),
                None => None,
            },
            None => None,
        }
    }

    /// Reads a mapping; the pointer stays where the attempt stopped.
    fn scan_map(&mut self) -> (found: Option<Property>)
        ensures
            final(self).0.stack == old(self).0.stack,
            final(self).0.cursor == old(self).0.cursor + map_at(
                old(self).0.stack@,
                old(self).0.cursor as int,
            ).reached,
            found_is(found, map_at(old(self).0.stack@, old(self).0.cursor as int)),
        decreases remaining(old(self).0.stack@, old(self).0.cursor as int), 0int,
    {
        let ghost s = self.0.stack@;
        let ghost pos = self.0.cursor as int;
        proof {
            reveal_strlit(".map(");
            assert(".map("@ =~= seq!['.', 'm', 'a', 'p', '(']);
        }
        if self.0.consume_string(".map(").is_none() {
            return None;
        }
        let mut properties: Vec<Property> = Vec::new();
        assert(steps_of(properties@) =~= Seq::<Step>::empty());
        loop
            invariant
                self.0.stack == old(self).0.stack,
                s == self.0.stack@,
                pos == old(self).0.cursor,
                pos + 5 <= self.0.cursor,
                has_word(s, pos, seq!['.', 'm', 'a', 'p', '(']),
                steps_at(s, pos + 5, Seq::empty()).steps == steps_at(
                    s,
                    self.0.cursor as int,
                    steps_of(properties@),
                ).steps,
                steps_at(s, pos + 5, Seq::empty()).consumed == (self.0.cursor - (pos + 5))
                    + steps_at(s, self.0.cursor as int, steps_of(properties@)).consumed,
            decreases remaining(s, self.0.cursor as int),
        {
            proof {
                lemma_step_consumes(s, self.0.cursor as int);
            }
            match self.parse_any() {
                Some(Ok(property)) => {
                    proof {
                        assert(steps_of(properties@.push(property)) =~= steps_of(
                            properties@,
                        ).push(property@));
                    }
                    properties.push(property);
                },
                _ => {
                    return match self.0.consume_byte(')') {
                        Some(_) => {
                            let mapping = Property::MapEach(JsonQuery(properties));
                            proof {
                                lemma_map_view(mapping);
                            }
                            Some(mapping)
                        },
                        None => None,
                    };
                },
            }
        }
    }

    /// Consumes the word `s` and yields `t`, or leaves the pointer where it
    /// is and yields nothing.
    #[inline(always)]
    fn try_consume(&mut self, s: &str, t: Property) -> (found: Option<Property>)
        ensures
            final(self).0.stack == old(self).0.stack,
            has_word(old(self).0.stack@, old(self).0.cursor as int, s@) ==> found == Some(t)
                && final(self).0.cursor == old(self).0.cursor + s@.len(),
            !has_word(old(self).0.stack@, old(self).0.cursor as int, s@) ==> found is None
                && final(self).0.cursor == old(self).0.cursor,
    {
        match self.0.consume_string(s) {
            Some(_) => Some(t),
            None => None,
        }
    }
}

} // verus!

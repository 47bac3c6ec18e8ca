//! The grammar of queries, as functions from a text and a place in it to
//! the steps that stand there.
use super::token::Step;
use crate::lexer::{char_at, has_char, has_word, int_at, is_digit, remaining, run_len};
use vstd::prelude::*;

verus! {

/// What one production of the query grammar finds at a place: a step, if it
/// matched, and how far the attempt reached into the text, match or not.
pub struct Scanned {
    pub found: Option<Step>,
    pub reached: nat,
}

impl Scanned {
    /// How far the pointer moves: over all that was read for a match, and
    /// not at all for an attempt that failed.
    pub open spec fn consumed(self) -> nat {
        if self.found is Some {
            self.reached
        } else {
            0
        }
    }
}

/// What stands at a place of a query: nothing at the end of the text, else a
/// step, or the offset that a syntax error is reported at; and how far the
/// pointer moves.
pub struct Stepped {
    pub outcome: Option<Result<Step, int>>,
    pub consumed: nat,
}

/// The steps read in a row from some place on, how far the pointer moved
/// over them, and what ended the row: the offset of a syntax error, or
/// nothing at the end of the text.
pub struct Steps {
    pub steps: Seq<Step>,
    pub stopped: Option<int>,
    pub consumed: nat,
}

/// A character that may stand in a name after a dot.
pub open spec fn is_name_char(c: char) -> bool {
    c != '.' && c != '[' && c != ')'
}

/// `.name`: a dot and a name of at least one character, which ends before
/// the next `.`, `[` or `)`.
pub open spec fn dot_at(s: Seq<char>, pos: int) -> Scanned {
    if has_char(s, pos, '.') {
        let n = run_len(s, pos + 1, |c: char| is_name_char(c));
        if n == 0 {
            Scanned { found: None, reached: 1 }
        } else {
            Scanned { found: Some(Step::Dot(s.subrange(pos + 1, pos + 1 + n))), reached: 1 + n }
        }
    } else {
        Scanned { found: None, reached: 0 }
    }
}

/// `["name"]`: the name has at least one character and ends before the next
/// quote.
pub open spec fn bracket_at(s: Seq<char>, pos: int) -> Scanned {
    if has_word(s, pos, seq!['[', '"']) {
        let n = run_len(s, pos + 2, |c: char| c != '"');
        if n == 0 {
            Scanned { found: None, reached: 2 }
        } else if has_word(s, pos + 2 + n, seq!['"', ']']) {
            Scanned {
                found: Some(Step::Bracket(s.subrange(pos + 2, pos + 2 + n))),
                reached: n + 4,
            }
        } else {
            Scanned { found: None, reached: n + 2 }
        }
    } else {
        Scanned { found: None, reached: 0 }
    }
}

/// `[n]`: a signed integer in brackets.
pub open spec fn index_at(s: Seq<char>, pos: int) -> Scanned {
    if has_char(s, pos, '[') {
        let index = int_at(s, pos + 1);
        match index.value {
            Some(i) if has_char(s, pos + 1 + index.consumed, ']') => Scanned {
                found: Some(Step::Index(i as int)),
                reached: index.consumed + 2,
            },
            _ => Scanned { found: None, reached: index.consumed + 1 },
        }
    } else {
        Scanned { found: None, reached: 0 }
    }
}

/// Any step: the character at `pos` decides which. After a dot the fixed
/// forms are tried first, then a mapping, then a name, each from `pos`: an
/// attempt that fails reads nothing. Where no form fits, nothing is read and
/// a syntax error is reported: at the place where the last attempt stopped;
/// for a character that begins no step, one further; and for an opening
/// bracket that neither a quote nor a number follows, two further.
pub open spec fn property_at(s: Seq<char>, pos: int) -> Stepped
    decreases remaining(s, pos), 1int,
{
    match char_at(s, pos) {
        None => Stepped { outcome: None, consumed: 0 },
        Some(c) => {
            if c == '.' {
                if has_word(s, pos, seq!['.', 'k', 'e', 'y', 's', '(', ')']) {
                    Stepped { outcome: Some(Ok(Step::Keys)), consumed: 7 }
                } else if has_word(s, pos, seq!['.', 'v', 'a', 'l', 'u', 'e', 's', '(', ')']) {
                    Stepped { outcome: Some(Ok(Step::Values)), consumed: 9 }
                } else if has_word(s, pos, seq!['.', 'l', 'e', 'n', 'g', 't', 'h', '(', ')']) {
                    Stepped { outcome: Some(Ok(Step::Length)), consumed: 9 }
                } else {
                    let mapping = map_at(s, pos);
                    match mapping.found {
                        Some(step) => Stepped {
                            outcome: Some(Ok(step)),
                            consumed: mapping.reached,
                        },
                        None => answer(dot_at(s, pos), pos),
                    }
                }
            } else if c == '[' {
                match char_at(s, pos + 1) {
                    Some(d) if d == '"' => answer(bracket_at(s, pos), pos),
                    Some(d) if d == '-' || is_digit(d) => answer(index_at(s, pos), pos),
                    _ => Stepped { outcome: Some(Err(pos + 2)), consumed: 0 },
                }
            } else {
                Stepped { outcome: Some(Err(pos + 1)), consumed: 0 }
            }
        },
    }
}

/// What the last attempt at a step from `pos` amounts to: the step it
/// found, or an error at the place that it reached, with nothing read.
pub open spec fn answer(last: Scanned, pos: int) -> Stepped {
    match last.found {
        Some(step) => Stepped { outcome: Some(Ok(step)), consumed: last.reached },
        None => Stepped { outcome: Some(Err(pos + last.reached)), consumed: 0 },
    }
}

/// `.map(query)`: the steps of the query are read until one fails or the
/// text ends, and `)` must stand where they stopped.
pub open spec fn map_at(s: Seq<char>, pos: int) -> Scanned
    decreases remaining(s, pos), 0int,
{
    if has_word(s, pos, seq!['.', 'm', 'a', 'p', '(']) {
        let inner = steps_at(s, pos + 5, Seq::empty());
        if has_char(s, pos + 5 + inner.consumed, ')') {
            Scanned { found: Some(Step::MapEach(inner.steps)), reached: inner.consumed + 6 }
        } else {
            Scanned { found: None, reached: inner.consumed + 5 }
        }
    } else {
        Scanned { found: None, reached: 0 }
    }
}

/// The steps that follow `steps` from `pos` on, read until the text ends or
/// one fails.
pub open spec fn steps_at(s: Seq<char>, pos: int, steps: Seq<Step>) -> Steps
    decreases remaining(s, pos), 2int,
{
    let next = property_at(s, pos);
    match next.outcome {
        Some(Ok(step)) if next.consumed > 0 && pos < s.len() => {
            let rest = steps_at(s, pos + next.consumed, steps.push(step));
            Steps {
                steps: rest.steps,
                stopped: rest.stopped,
                consumed: next.consumed + rest.consumed,
            }
        },
        Some(Err(offset)) => Steps { steps, stopped: Some(offset), consumed: next.consumed },
        _ => Steps { steps, stopped: None, consumed: next.consumed },
    }
}

/// A query: the steps of the whole text, or the offset of the first syntax
/// error.
pub open spec fn query_of(s: Seq<char>) -> Result<Seq<Step>, int> {
    let read = steps_at(s, 0, Seq::empty());
    match read.stopped {
        None => Ok(read.steps),
        Some(offset) => Err(offset),
    }
}

/// A step that was read took at least one character.
pub proof fn lemma_step_consumes(s: Seq<char>, pos: int)
    ensures
        property_at(s, pos).outcome matches Some(Ok(_)) ==> property_at(s, pos).consumed > 0 && pos
            < s.len(),
{
}

} // verus!

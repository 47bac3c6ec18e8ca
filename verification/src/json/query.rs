//! The steps, in order, that lead from a document to a subtree of it.
use super::error::{JsonQueryError, JsonQueryErrorType};
use super::parser::PropertyParser;
use super::path::{lemma_step_consumes, query_of, steps_at};
use super::token::{steps_of, Property, Step};
use crate::lexer::{clip, remaining};
use vstd::prelude::*;

verus! {

#[derive(Debug, PartialEq)]
pub struct JsonQuery(pub Vec<Property>);

impl View for JsonQuery {
    type V = Seq<Step>;

    open spec fn view(&self) -> Seq<Step> {
        steps_of(self.0@)
    }
}

impl JsonQuery {
    /// Reads the query `s`: every step of it, or the offset of the first
    /// syntax error together with the query itself.
    pub fn new(s: &str) -> (returned: Result<Self, JsonQueryError>)
        ensures
            match returned {
                Ok(query) => query_of(s@) == Ok::<Seq<Step>, int>(query@),
                Err(error) => {
                    &&& query_of(s@) matches Err(offset) && error.cursor == clip(offset)
                    &&& error.line@ == s@
                    &&& error.error_type == JsonQueryErrorType::SyntaxError
                },
            },
    {
        let mut parser = PropertyParser::new(s);
        let mut properties: Vec<Property> = Vec::new();
        assert(steps_of(properties@) =~= Seq::<Step>::empty());
        loop
            invariant
                parser.0.stack@ == s@,
                steps_at(s@, 0, Seq::empty()).steps == steps_at(
                    s@,
                    parser.0.cursor as int,
                    steps_of(properties@),
                ).steps,
                steps_at(s@, 0, Seq::empty()).stopped == steps_at(
                    s@,
                    parser.0.cursor as int,
                    steps_of(properties@),
                ).stopped,
            decreases remaining(s@, parser.0.cursor as int),
        {
            proof {
                lemma_step_consumes(s@, parser.0.cursor as int);
            }
            match parser.parse_any() {
                None => {
                    return Ok(Self(properties));
                },
                Some(Ok(property)) => {
                    proof {
                        assert(steps_of(properties@.push(property)) =~= steps_of(
                            properties@,
                        ).push(property@));
                    }
                    properties.push(property);
                },
                Some(Err(cursor)) => {
                    return Err(
                        JsonQueryError {
                            line: s.to_owned(),
                            cursor,
                            error_type: JsonQueryErrorType::SyntaxError,
                        },
                    );
                },
            }
        }
    }

    /// The steps of the query, in order.
    pub fn properties<'a>(&'a self) -> (steps: std::slice::Iter<'a, Property>)
        ensures
            vstd::std_specs::iter::IteratorSpec::remaining(&steps) == self.0@.as_ref(),
    {
        self.0.iter()
    }
}

impl Clone for JsonQuery {
    /// A copy that stands for the same steps.
    fn clone(&self) -> (copy: Self)
        ensures
            copy@ == self@,
    {
        let mut copies: Vec<Property> = Vec::new();
        let mut i: usize = 0;
        while i < self.0.len()
            invariant
                i <= self.0.len(),
                copies.len() == i,
                forall|k: int| 0 <= k < i ==> copies@[k]@ == self.0@[k]@,
            decreases self.0.len() - i,
        {
            copies.push(self.0[i].clone());
            i += 1;
        }
        assert(JsonQuery(copies)@ =~= self@);
        JsonQuery(copies)
    }
}

} // verus!

//! Error formatting utilities.
use crate::text::chars_of;
use vstd::prelude::*;

verus! {

/// The part of `s` that begins at `start` and is at most `width` characters
/// long; it ends with `s`.
pub open spec fn window(s: Seq<char>, start: int, width: int) -> Seq<char> {
    let from = if start < s.len() { start } else { s.len() as int };
    let to = if start + width < s.len() { start + width } else { s.len() as int };
    s.subrange(from, to)
}

/// `s` with its first two characters replaced by dots.
pub open spec fn dotted(s: Seq<char>) -> Seq<char> {
    Seq::new(s.len(), |i: int| if i < 2 { '.' } else { s[i] })
}

/// A text of more than fifty characters cut down to the fifty from `start`
/// on, the first two of them shown as dots; a shorter text as it is.
pub open spec fn shortened(s: Seq<char>, start: int) -> Seq<char> {
    if s.len() > 50 {
        dotted(window(s, start, 50))
    } else {
        s
    }
}

/// One of the capital letters `A` to `Z`.
pub open spec fn is_upper(c: char) -> bool {
    'A' <= c <= 'Z'
}

/// `s` with a space in front of each capital letter.
pub open spec fn spaced(s: Seq<char>) -> Seq<char>
    decreases s.len(),
{
    if s.len() == 0 {
        Seq::empty()
    } else if is_upper(s.last()) {
        spaced(s.drop_last()) + seq![' ', s.last()]
    } else {
        spaced(s.drop_last()).push(s.last())
    }
}

/// A name written in camel case as separate words: a space goes in front
/// of each capital letter but the first character. The empty name gives a
/// single space.
pub open spec fn uncamelized(s: Seq<char>) -> Seq<char> {
    if s.len() == 0 {
        seq![' ']
    } else {
        seq![s[0]] + spaced(s.skip(1))
    }
}

/// A message with the name of the program in front of it.
pub open spec fn error_line(program: Seq<char>, message: Seq<char>) -> Seq<char> {
    program + ": "@ + message
}

pub trait ErrorString: Sized {
    const SUBSTR_WIDTH: usize;

    fn shorten(&self, start: usize) -> Self;

    fn uncamelize(&self) -> Self;

    fn errorfmt(&self, program: &str) -> Self;
}

impl ErrorString for String {
    const SUBSTR_WIDTH: usize = 50;

    fn shorten(&self, start: usize) -> (short: Self)
        ensures
            short@ == shortened(self@, start as int),
    {
        let chars = chars_of(self.as_str());
        if chars.len() > 50 {
            let from: usize = if start < chars.len() { start } else { chars.len() };
            let to: usize = if chars.len() - from > 50 { from + 50 } else { chars.len() };
            let mut short = String::new();
            let mut i: usize = from;
            while i < to
                invariant
                    from <= i <= to <= chars.len(),
                    short@ == dotted(chars@.subrange(from as int, i as int)),
                decreases to - i,
            {
                short.push(if i - from < 2 { '.' } else { chars[i] });
                i += 1;
                assert(short@ =~= dotted(chars@.subrange(from as int, i as int)));
            }
            short
        } else {
            self.clone()
        }
    }

    fn uncamelize(&self) -> (words: Self)
        ensures
            words@ == uncamelized(self@),
    {
        let chars = chars_of(self.as_str());
        let mut new_string = String::new();
        if chars.len() == 0 {
            new_string.push(' ');
            return new_string;
        }
        new_string.push(chars[0]);
        let ghost rest = chars@.skip(1);
        let mut i: usize = 1;
        assert(rest.take(0) =~= Seq::<char>::empty());
        while i < chars.len()
            invariant
                1 <= i <= chars.len(),
                rest == chars@.skip(1),
                new_string@ == seq![chars@[0]] + spaced(rest.take(i - 1)),
            decreases chars.len() - i,
        {
            let ch: char = chars[i];
            proof {
                assert(rest.take(i as int).drop_last() =~= rest.take(i - 1));
                assert(rest.take(i as int).last() == ch);
            }
            if 'A' <= ch && ch <= 'Z' {
                new_string.push(' ');
                new_string.push(ch);
            } else {
                new_string.push(ch);
            }
            i += 1;
            assert(new_string@ =~= seq![chars@[0]] + spaced(rest.take(i - 1)));
        }
        assert(rest.take(chars.len() - 1) =~= rest);
        new_string
    }

    fn errorfmt(&self, program: &str) -> (line: Self)
        ensures
            line@ == error_line(program@, self@),
    {
        let mut line = program.to_owned();
        line.append(": ");
        line.append(self.as_str());
        line
    }
}

} // verus!

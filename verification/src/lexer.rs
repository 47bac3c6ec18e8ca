//! Text scanning utility: a character buffer with a single read pointer.
use crate::text::chars_of;
use vstd::prelude::*;

verus! {

pub type Stack = Vec<char>;

pub type Cursor = usize;

/// A place in a text: line and column, both counted from one.
#[derive(Debug, Copy, Clone)]
pub struct Position {
    pub row: usize,
    pub col: usize,
}

impl Position {
    pub const MINROW: usize = 1;

    pub const MINCOL: usize = 1;

    /// The first column of the first line.
    pub fn new() -> (position: Self)
        ensures
            position.row == 1,
            position.col == 1,
    {
        Self { row: Self::MINROW, col: Self::MINCOL }
    }
}

/// Number of characters between `pos` and the end of `s`; zero when `pos`
/// lies beyond the end.
pub open spec fn remaining(s: Seq<char>, pos: int) -> nat {
    if pos <= s.len() {
        (s.len() - pos) as nat
    } else {
        0
    }
}

/// The character at `pos`, if there is one.
pub open spec fn char_at(s: Seq<char>, pos: int) -> Option<char> {
    if 0 <= pos < s.len() {
        Some(s[pos])
    } else {
        None
    }
}

/// Whether `s` holds the character `c` at `pos`.
pub open spec fn has_char(s: Seq<char>, pos: int, c: char) -> bool {
    0 <= pos < s.len() && s[pos] == c
}

/// Whether `word` stands in `s` at `pos`, every character of it.
pub open spec fn has_word(s: Seq<char>, pos: int, word: Seq<char>) -> bool {
    &&& 0 <= pos
    &&& pos + word.len() <= s.len()
    &&& s.subrange(pos, pos + word.len()) == word
}

/// Length of the longest run of characters from `pos` on that satisfy `pred`.
pub open spec fn run_len(s: Seq<char>, pos: int, pred: spec_fn(char) -> bool) -> nat
    decreases remaining(s, pos),
{
    if 0 <= pos < s.len() && pred(s[pos]) {
        1 + run_len(s, pos + 1, pred)
    } else {
        0
    }
}

/// One of the ten decimal digits.
pub open spec fn is_digit(c: char) -> bool {
    '0' <= c <= '9'
}

/// The number a decimal digit stands for.
pub open spec fn digit_value(c: char) -> nat {
    (c as u32 - '0' as u32) as nat
}

/// The number written by a run of decimal digits, most significant first.
pub open spec fn decimal_value(digits: Seq<char>) -> nat
    decreases digits.len(),
{
    if digits.len() == 0 {
        0
    } else {
        decimal_value(digits.drop_last()) * 10 + digit_value(digits.last())
    }
}

/// What reading a number at some place yields: the number, if one was read,
/// and how many characters were passed over.
pub struct Scan<T> {
    pub value: Option<T>,
    pub consumed: nat,
}

/// An unsigned integer at `pos`: the longest run of digits. Without a digit
/// nothing is read and nothing consumed; a run whose value exceeds `u32` is
/// consumed and yields nothing.
pub open spec fn uint_at(s: Seq<char>, pos: int) -> Scan<u32> {
    let n = run_len(s, pos, |c: char| is_digit(c));
    let value = decimal_value(s.subrange(pos, pos + n));
    if n == 0 || value > u32::MAX {
        Scan { value: None, consumed: n }
    } else {
        Scan { value: Some(value as u32), consumed: n }
    }
}

/// A signed integer at `pos`: an optional minus sign, then an unsigned
/// integer. Without a digit nothing is consumed, not even the sign. A number
/// outside `i32` is consumed and yields nothing.
pub open spec fn int_at(s: Seq<char>, pos: int) -> Scan<i32> {
    let sign: nat = if has_char(s, pos, '-') { 1 } else { 0 };
    let digits = uint_at(s, pos + sign);
    if digits.consumed == 0 {
        Scan { value: None, consumed: 0 }
    } else {
        let consumed = sign + digits.consumed;
        match digits.value {
            Some(n) if sign == 1 && n <= 0x8000_0000 => Scan {
                value: Some((-(n as int)) as i32),
                consumed,
            },
            Some(n) if sign == 0 && n <= i32::MAX => Scan { value: Some(n as i32), consumed },
            _ => Scan { value: None, consumed },
        }
    }
}

/// The line of the place that follows the text `before`, counted from one:
/// each line feed begins a new line.
pub open spec fn row_after(before: Seq<char>) -> nat
    decreases before.len(),
{
    if before.len() == 0 {
        1
    } else if before.last() == '\n' {
        row_after(before.drop_last()) + 1
    } else {
        row_after(before.drop_last())
    }
}

/// The column of the place that follows the text `before`, counted from one.
pub open spec fn col_after(before: Seq<char>) -> nat
    decreases before.len(),
{
    if before.len() == 0 {
        1
    } else if before.last() == '\n' {
        1
    } else {
        col_after(before.drop_last()) + 1
    }
}

/// The first `n` characters of `s`, all of it when `n` is beyond its end.
pub open spec fn prefix(s: Seq<char>, n: int) -> Seq<char> {
    if n <= 0 {
        Seq::empty()
    } else if n >= s.len() {
        s
    } else {
        s.take(n)
    }
}

/// Where the line begins that holds the place `pos`: after the nearest line
/// feed before `pos`, or at the start of the text.
pub open spec fn line_start(s: Seq<char>, pos: int) -> int
    decreases pos,
{
    if 0 < pos <= s.len() && s[pos - 1] != '\n' {
        line_start(s, pos - 1)
    } else {
        pos
    }
}

/// The line of text that holds the place `offset`, without the line feed
/// that ends it, nor the carriage return before that line feed. An offset
/// beyond the end counts as the end.
pub open spec fn line_at(s: Seq<char>, offset: int) -> Seq<char> {
    let pos = if offset < s.len() { offset } else { s.len() as int };
    let end = pos + run_len(s, pos, |c: char| c != '\n');
    let start = line_start(s, pos);
    if start < end < s.len() && s[end - 1] == '\r' {
        s.subrange(start, end - 1)
    } else {
        s.subrange(start, end)
    }
}

/// The largest `usize` where `n` does not fit, else `n`.
pub open spec fn clip(n: int) -> usize {
    if n >= usize::MAX {
        usize::MAX
    } else if n <= 0 {
        0
    } else {
        n as usize
    }
}

/// A run of `n` characters from `pos` on is the longest one that satisfies
/// `pred` once the character after it, if any, does not.
pub proof fn lemma_run_len_is(s: Seq<char>, pos: int, n: nat, pred: spec_fn(char) -> bool)
    requires
        0 <= pos,
        pos + n <= s.len(),
        forall|i: int| pos <= i < pos + n ==> pred(#[trigger] s[i]),
        pos + n == s.len() || !pred(s[pos + n]),
    ensures
        run_len(s, pos, pred) == n,
    decreases n,
{
    if n > 0 {
        lemma_run_len_is(s, pos + 1, (n - 1) as nat, pred);
    }
}

/// The longest run stays inside the text, every character of it satisfies
/// `pred`, and the character after it does not.
pub proof fn lemma_run_len_bounds(s: Seq<char>, pos: int, pred: spec_fn(char) -> bool)
    ensures
        run_len(s, pos, pred) <= remaining(s, pos),
        forall|i: int| pos <= i < pos + run_len(s, pos, pred) ==> 0 <= i < s.len() && pred(#[trigger] s[i]),
        0 <= pos && pos + run_len(s, pos, pred) < s.len() ==> !pred(s[pos + run_len(s, pos, pred)]),
    decreases remaining(s, pos),
{
    if 0 <= pos < s.len() && pred(s[pos]) {
        lemma_run_len_bounds(s, pos + 1, pred);
    }
}

/// Appending a digit to a run multiplies its value by ten and adds the digit.
pub proof fn lemma_decimal_value_push(digits: Seq<char>, c: char)
    ensures
        decimal_value(digits.push(c)) == decimal_value(digits) * 10 + digit_value(c),
{
    assert(digits.push(c).drop_last() =~= digits);
}

#[derive(Debug)]
pub struct Lexer {
    pub stack: Stack,
    pub cursor: Cursor,
}

impl Lexer {
    /// A lexer over the characters of `s`, its pointer at the first.
    pub fn new(s: &str) -> (lexer: Self)
        ensures
            lexer.stack@ == s@,
            lexer.cursor == 0,
    {
        Self { stack: chars_of(s), cursor: 0 }
    }

    /// The character at the pointer, which stays where it is.
    #[inline]
    pub fn peek(&self) -> (found: Option<&char>)
        ensures
            match found {
                Some(c) => char_at(self.stack@, self.cursor as int) == Some(*c),
                None => char_at(self.stack@, self.cursor as int) is None,
            },
    {
        self.peek_at(self.cursor)
    }

    /// The character at `cursor`, or nothing beyond the end of the text.
    #[inline]
    pub fn peek_at(&self, cursor: Cursor) -> (found: Option<&char>)
        ensures
            match found {
                Some(c) => char_at(self.stack@, cursor as int) == Some(*c),
                None => char_at(self.stack@, cursor as int) is None,
            },
    {
        if cursor < self.stack.len() {
            Some(&self.stack[cursor])
        } else {
            None
        }
    }

    /// Consumes the longest run of characters for which `f` answers `true` and
    /// returns it. The run may be empty; the text itself never changes.
    #[inline]
    pub fn consume_while<F: Fn(&char) -> bool>(&mut self, f: F) -> (run: String)
        requires
            forall|c: char| call_requires(f, (&c,)),
        ensures
            final(self).stack == old(self).stack,
            final(self).cursor == old(self).cursor + run@.len(),
            old(self).cursor + run@.len() <= old(self).stack.len() || run@.len() == 0,
            run@.len() > 0 ==> run@ == old(self).stack@.subrange(
                old(self).cursor as int,
                final(self).cursor as int,
            ),
            forall|i: int|
                old(self).cursor <= i < final(self).cursor ==> call_ensures(
                    f,
                    (&#[trigger] old(self).stack@[i],),
                    true,
                ),
            final(self).cursor < old(self).stack.len() ==> call_ensures(
                f,
                (&old(self).stack@[final(self).cursor as int],),
                false,
            ),
    {
        let mut run = String::new();
        let start: usize = self.cursor;
        while self.cursor < self.stack.len()
            invariant
                self.stack == old(self).stack,
                start == old(self).cursor,
                start <= self.cursor,
                self.cursor <= self.stack.len() || self.cursor == start,
                self.cursor == start + run@.len(),
                self.cursor <= self.stack.len() ==> run@ == self.stack@.subrange(
                    start as int,
                    self.cursor as int,
                ),
                forall|c: char| call_requires(f, (&c,)),
                forall|i: int|
                    start <= i < self.cursor ==> call_ensures(f, (&#[trigger] self.stack@[i],), true),
            ensures
                self.stack == old(self).stack,
                start <= self.cursor,
                self.cursor <= self.stack.len() || self.cursor == start,
                self.cursor == start + run@.len(),
                self.cursor <= self.stack.len() ==> run@ == self.stack@.subrange(
                    start as int,
                    self.cursor as int,
                ),
                forall|i: int|
                    start <= i < self.cursor ==> call_ensures(f, (&#[trigger] self.stack@[i],), true),
                self.cursor < self.stack.len() ==> call_ensures(
                    f,
                    (&self.stack@[self.cursor as int],),
                    false,
                ),
            decreases self.stack.len() - self.cursor,
        {
            let c: char = self.stack[self.cursor];
            if !f(&c) {
                break;
            }
            run.push(c);
            self.cursor += 1;
            assert(run@ =~= self.stack@.subrange(start as int, self.cursor as int));
        }
        run
    }

    /// Consumes `x` if it is the character at the pointer; otherwise the
    /// pointer stays where it is.
    #[inline]
    pub fn consume_byte(&mut self, x: char) -> (found: Option<char>)
        ensures
            final(self).stack == old(self).stack,
            has_char(old(self).stack@, old(self).cursor as int, x) ==> found == Some(x)
                && final(self).cursor == old(self).cursor + 1,
            !has_char(old(self).stack@, old(self).cursor as int, x) ==> found is None
                && final(self).cursor == old(self).cursor,
    {
        if self.cursor < self.stack.len() {
            if self.stack[self.cursor] == x {
                self.cursor += 1;
                return Some(x);
            }
        }
        None
    }

    /// Consumes the word `ys` if every character of it stands at the pointer, in
    /// sequence; otherwise the pointer stays where it is.
    #[inline]
    pub fn consume_string(&mut self, ys: &str) -> (found: Option<String>)
        ensures
            final(self).stack == old(self).stack,
            has_word(old(self).stack@, old(self).cursor as int, ys@) ==> final(self).cursor
                == old(self).cursor + ys@.len() && found is Some && found->0@ == ys@,
            !has_word(old(self).stack@, old(self).cursor as int, ys@) ==> found is None
                && final(self).cursor == old(self).cursor,
    {
        if self.cursor > self.stack.len() {
            return None;
        }
        let mut next_index: usize = self.cursor;
        assert(self.stack@.subrange(self.cursor as int, next_index as int) =~= ys@.take(0));
        for c in it: ys.chars()
            invariant
                it.seq() == ys@,
                self.stack == old(self).stack,
                self.cursor == old(self).cursor,
                next_index == self.cursor + it.index(),
                next_index <= self.stack.len(),
                self.stack@.subrange(self.cursor as int, next_index as int) == ys@.take(
                    it.index() as int,
                ),
        {
            if next_index >= self.stack.len() {
                proof {
                    if has_word(self.stack@, self.cursor as int, ys@) {
                        assert(false);
                    }
                }
                return None;
            }
            if self.stack[next_index] != c {
                proof {
                    let k = it.index() as int;
                    if has_word(self.stack@, self.cursor as int, ys@) {
                        assert(self.stack@.subrange(
                            self.cursor as int,
                            self.cursor + ys@.len(),
                        )[k] == ys@[k]);
                        assert(false);
                    }
                }
                return None;
            }
            next_index += 1;
            assert(self.stack@.subrange(self.cursor as int, next_index as int) =~= ys@.take(
                it.index() + 1,
            ));
        }
        assert(ys@.take(ys@.len() as int) =~= ys@);
        self.cursor = next_index;
        Some(ys.to_owned())
    }

    /// Consumes the longest run of digits and returns the number it writes.
    /// Without a digit the pointer stays; a number too large for `u32` is
    /// consumed and nothing returned.
    #[inline]
    pub fn consume_uint(&mut self) -> (found: Option<u32>)
        ensures
            final(self).stack == old(self).stack,
            final(self).cursor == old(self).cursor + uint_at(
                old(self).stack@,
                old(self).cursor as int,
            ).consumed,
            found == uint_at(old(self).stack@, old(self).cursor as int).value,
    {
        let ghost s = self.stack@;
        let ghost pred = |c: char| is_digit(c);
        let start: usize = self.cursor;
        if start >= self.stack.len() {
            return None;
        }
        let mut value: u64 = 0;
        let mut fits: bool = true;
        assert(s.subrange(start as int, start as int) =~= Seq::<char>::empty());
        while self.cursor < self.stack.len() && '0' <= self.stack[self.cursor]
            && self.stack[self.cursor] <= '9'
            invariant
                self.stack == old(self).stack,
                s == self.stack@,
                start == old(self).cursor,
                start <= self.cursor <= self.stack.len(),
                forall|i: int| start <= i < self.cursor ==> is_digit(#[trigger] s[i]),
                fits ==> value == decimal_value(s.subrange(start as int, self.cursor as int))
                    && value <= u32::MAX,
                !fits ==> decimal_value(s.subrange(start as int, self.cursor as int)) > u32::MAX,
            decreases self.stack.len() - self.cursor,
        {
            let c: char = self.stack[self.cursor];
            let digit: u64 = (c as u32 - '0' as u32) as u64;
            proof {
                lemma_decimal_value_push(s.subrange(start as int, self.cursor as int), c);
                assert(s.subrange(start as int, self.cursor as int).push(c) =~= s.subrange(
                    start as int,
                    self.cursor + 1,
                ));
            }
            if fits {
                value = value * 10 + digit;
                if value > u32::MAX as u64 {
                    fits = false;
                }
            }
            self.cursor += 1;
        }
        proof {
            assert forall|i: int| start <= i < start + (self.cursor - start) implies pred(
                #[trigger] s[i],
            ) by {}
            lemma_run_len_is(s, start as int, (self.cursor - start) as nat, pred);
        }
        if self.cursor == start || !fits {
            None
        } else {
            Some(value as u32)
        }
    }

    /// Consumes an optional minus sign and a run of digits, and returns the
    /// number they write. Without a digit the pointer stays where it was; a
    /// number outside `i32` is consumed and nothing returned.
    #[inline]
    pub fn consume_int(&mut self) -> (found: Option<i32>)
        ensures
            final(self).stack == old(self).stack,
            final(self).cursor == old(self).cursor + int_at(
                old(self).stack@,
                old(self).cursor as int,
            ).consumed,
            found == int_at(old(self).stack@, old(self).cursor as int).value,
    {
        let start: usize = self.cursor;
        let negative: bool = self.consume_byte('-').is_some();
        let after_sign: usize = self.cursor;
        let digits = self.consume_uint();
        if self.cursor == after_sign {
            self.cursor = start;
            return None;
        }
        match digits {
            None => None,
            Some(n) => {
                let magnitude: i64 = n as i64;
                let signed: i64 = if negative { -magnitude } else { magnitude };
                if signed > i32::MAX as i64 || signed < i32::MIN as i64 {
                    None
                } else {
                    Some(signed as i32)
                }
            },
        }
    }

    /// The whole text, consumed or not.
    #[inline]
    pub fn get_string(&self) -> (text: String)
        ensures
            text@ == self.stack@,
    {
        let mut text = String::new();
        let mut i: usize = 0;
        while i < self.stack.len()
            invariant
                i <= self.stack.len(),
                text@ == self.stack@.take(i as int),
            decreases self.stack.len() - i,
        {
            text.push(self.stack[i]);
            i += 1;
        }
        text
    }

    /// The line of text that the character at `cursor` stands on.
    pub fn line(&self, cursor: Cursor) -> (text: String)
        ensures
            text@ == line_at(self.stack@, cursor as int),
    {
        let ghost s = self.stack@;
        let pos: usize = if cursor < self.stack.len() { cursor } else { self.stack.len() };
        let mut start: usize = pos;
        while start > 0 && self.stack[start - 1] != '\n'
            invariant
                start <= pos <= self.stack.len(),
                line_start(self.stack@, start as int) == line_start(self.stack@, pos as int),
            decreases start,
        {
            start -= 1;
        }
        let mut end: usize = pos;
        while end < self.stack.len() && self.stack[end] != '\n'
            invariant
                pos <= end <= self.stack.len(),
                forall|i: int| pos <= i < end ==> #[trigger] self.stack@[i] != '\n',
            decreases self.stack.len() - end,
        {
            end += 1;
        }
        proof {
            let pred = |c: char| c != '\n';
            assert forall|i: int| pos <= i < pos + (end - pos) implies pred(#[trigger] s[i]) by {}
            lemma_run_len_is(s, pos as int, (end - pos) as nat, pred);
        }
        let stop: usize = if start < end && end < self.stack.len() && self.stack[end - 1] == '\r' {
            end - 1
        } else {
            end
        };
        let mut text = String::new();
        let mut i: usize = start;
        while i < stop
            invariant
                start <= i <= stop <= self.stack.len(),
                text@ == self.stack@.subrange(start as int, i as int),
            decreases stop - i,
        {
            text.push(self.stack[i]);
            i += 1;
        }
        text
    }

    /// The line and column of the character at `cursor`, found by counting the
    /// line feeds before it. A cursor beyond the end counts as the end.
    #[inline]
    pub fn position(&self, cursor: Cursor) -> (position: Position)
        ensures
            position.row == clip(row_after(prefix(self.stack@, cursor as int)) as int),
            position.col == clip(col_after(prefix(self.stack@, cursor as int)) as int),
    {
        let end: usize = if cursor < self.stack.len() { cursor } else { self.stack.len() };
        let mut row: usize = 1;
        let mut col: usize = 1;
        let mut i: usize = 0;
        assert(self.stack@.take(0) =~= Seq::<char>::empty());
        while i < end
            invariant
                i <= end <= self.stack.len(),
                row == clip(row_after(self.stack@.take(i as int)) as int),
                col == clip(col_after(self.stack@.take(i as int)) as int),
            decreases end - i,
        {
            assert(self.stack@.take(i + 1).drop_last() =~= self.stack@.take(i as int));
            if self.stack[i] == '\n' {
                if row < usize::MAX {
                    row += 1;
                }
                col = 1;
            } else {
                if col < usize::MAX {
                    col += 1;
                }
            }
            i += 1;
        }
        assert(self.stack@.take(end as int) =~= prefix(self.stack@, cursor as int));
        Position { row, col }
    }
}

} // verus!

//! Source positions and spans.
use vstd::prelude::*;

verus! {

/// Number of bytes that the UTF-8 encoding of `c` takes.
pub open spec fn utf8_len(c: char) -> nat {
    if (c as u32) < 0x80 {
        1
    } else if (c as u32) < 0x800 {
        2
    } else if (c as u32) < 0x10000 {
        3
    } else {
        4
    }
}

/// The length in bytes of the character's UTF-8 encoding.
fn char_len_utf8(c: char) -> (r: usize)
    ensures
        r == utf8_len(c),
{
    let u = c as u32;
    if u < 0x80 {
        1
    } else if u < 0x800 {
        2
    } else if u < 0x10000 {
        3
    } else {
        4
    }
}

/// A place in the source: line and column (both from 1) and the byte offset.
#[derive(Debug, Clone, Copy, PartialEq, Eq, Structural)]
pub struct Position {
    pub line: u32,
    pub column: u32,
    pub absolute: usize,
}

/// A range of the source; `end.absolute` is one past the last byte.
#[derive(Debug, Clone, Copy, PartialEq, Eq, Structural)]
pub struct Span {
    pub start: Position,
    pub end: Position,
}

/// A value together with the span of source that produced it.
#[derive(Debug, Clone)]
pub struct Spanned<T> {
    pub span: Span,
    pub value: T,
}

/// The position after `p` once `ch` has been read.
pub open spec fn shift_spec(p: Position, ch: char) -> Position {
    Position {
        line: if ch == '\n' { (p.line + 1) as u32 } else { p.line },
        column: if ch == '\n' {
            1
        } else if ch == '\t' {
            (p.column + 4) as u32
        } else {
            (p.column + 1) as u32
        },
        absolute: (p.absolute + utf8_len(ch)) as usize,
    }
}

/// Whether `shift` can move past `ch` from `p` without leaving the integer ranges.
pub open spec fn can_shift(p: Position, ch: char) -> bool {
    &&& p.line < u32::MAX
    &&& p.column + 4 <= u32::MAX
    &&& p.absolute + 4 <= usize::MAX
}

impl Position {
    /// The position that follows this one once `ch` has been read: a newline
    /// starts the next line, a tab moves four columns, any other character one.
    pub fn shift(self, ch: char) -> (r: Position)
        requires
            can_shift(self, ch),
        ensures
            r == shift_spec(self, ch),
    {
        let mut p = self;
        if ch == '\n' {
            p.line = p.line + 1;
            p.column = 1;
        } else if ch == '\t' {
            p.column = p.column + 4;
        } else {
            p.column = p.column + 1;
        }
        p.absolute = p.absolute + char_len_utf8(ch);
        p
    }
}

} // verus!

verus! {

/// The characters of `input`, in order.
pub fn chars_of(input: &str) -> (r: Vec<char>)
    ensures
        r@ == input@,
{
    let mut v: Vec<char> = Vec::new();
    for c in it: input.chars()
        invariant
            v@ == it.seq().take(it.index() as int),
    {
        v.push(c);
    }
    v
}

} // verus!

verus! {

/// The longest source, in characters, that positions can count without overflow.
pub const MAX_SOURCE: usize = 0x1000_0000;

/// A cursor over the characters of a source that knows the position of each.
#[derive(Debug, Clone)]
pub struct CharPosition {
    /// The position of the next character.
    pub pos: Position,
    pub chars: Vec<char>,
    /// The index of the next character.
    pub index: usize,
}

/// Bounds that hold of a position reached after `n` characters.
pub open spec fn pos_bounded(p: Position, n: nat) -> bool {
    &&& p.line <= 1 + n
    &&& p.column <= 1 + 4 * n
    &&& p.absolute <= 4 * n
}

/// The position after the first `n` characters of `s`, from line 1,
/// column 1, offset 0.
pub open spec fn pos_after(s: Seq<char>, n: int) -> Position
    decreases n,
{
    if n <= 0 {
        Position { line: 1, column: 1, absolute: 0 }
    } else {
        shift_spec(pos_after(s, n - 1), s[n - 1])
    }
}

/// One more character keeps a position within the bounds of one more step.
pub proof fn lemma_shift_bounded(p: Position, ch: char, n: nat)
    requires
        pos_bounded(p, n),
        n < MAX_SOURCE,
    ensures
        can_shift(p, ch),
        pos_bounded(shift_spec(p, ch), n + 1),
{
}

impl CharPosition {
    /// The index is within the characters, and the position within the
    /// bounds of what has been read.
    pub open spec fn wf(&self) -> bool {
        &&& self.index <= self.chars@.len() <= MAX_SOURCE
        &&& pos_bounded(self.pos, self.index as nat)
        &&& self.pos == pos_after(self.chars@, self.index as int)
    }

    /// A cursor at the start of `input`: line 1, column 1, offset 0.
    pub fn new(input: &str) -> (r: CharPosition)
        requires
            input@.len() <= MAX_SOURCE,
        ensures
            r.wf(),
            r.chars@ == input@,
            r.index == 0,
            r.pos == (Position { line: 1, column: 1, absolute: 0 }),
    {
        CharPosition { pos: Position { line: 1, column: 1, absolute: 0 }, chars: chars_of(input), index: 0 }
    }

    /// The next character with its position, if any is left.
    pub fn next(&mut self) -> (r: Option<(Position, char)>)
        requires
            old(self).wf(),
        ensures
            final(self).wf(),
            final(self).chars == old(self).chars,
            old(self).index < old(self).chars@.len() ==> {
                &&& r == Some((old(self).pos, old(self).chars@[old(self).index as int]))
                &&& final(self).index == old(self).index + 1
                &&& final(self).pos == shift_spec(old(self).pos, r.unwrap().1)
            },
            old(self).index >= old(self).chars@.len() ==> r is None && *final(self) == *old(self),
    {
        if self.index < self.chars.len() {
            let ch = self.chars[self.index];
            let pos = self.pos;
            proof {
                lemma_shift_bounded(self.pos, ch, self.index as nat);
            }
            self.pos = self.pos.shift(ch);
            self.index = self.index + 1;
            Some((pos, ch))
        } else {
            None
        }
    }
}

} // verus!

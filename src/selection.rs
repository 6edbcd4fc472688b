use vstd::prelude::*;

use crate::text::char_of_byte;

verus! {

/// Which end of a range moves.
#[derive(Clone, Copy, Debug, PartialEq, Eq, Structural)]
pub enum Direction {
    Forward,
    Backward,
}

/// A selection span in char offsets: `anchor` stays, `head` moves.
#[derive(Clone, Copy, Debug, PartialEq, Eq, Structural)]
pub struct Range {
    pub anchor: usize,
    pub head: usize,
}

/// An ordered collection of ranges.
pub struct Selection {
    pub ranges: Vec<Range>,
}

impl Range {
    pub open spec fn from_spec(self) -> usize {
        if self.anchor <= self.head {
            self.anchor
        } else {
            self.head
        }
    }

    pub open spec fn to_spec(self) -> usize {
        if self.anchor <= self.head {
            self.head
        } else {
            self.anchor
        }
    }

    pub open spec fn direction_spec(self) -> Direction {
        if self.head < self.anchor {
            Direction::Backward
        } else {
            Direction::Forward
        }
    }

    /// The same span with anchor and head swapped.
    pub open spec fn flip_spec(self) -> Range {
        Range { anchor: self.head, head: self.anchor }
    }

    /// The same span, oriented in direction `d`.
    pub open spec fn with_direction_spec(self, d: Direction) -> Range {
        if self.direction_spec() == d {
            self
        } else {
            self.flip_spec()
        }
    }

    pub fn new(anchor: usize, head: usize) -> (r: Range)
        ensures
            r == (Range { anchor, head }),
    {
        Range { anchor, head }
    }

    /// The smaller end.
    pub fn from(&self) -> (r: usize)
        ensures
            r == self.from_spec(),
    {
        if self.anchor <= self.head {
            self.anchor
        } else {
            self.head
        }
    }

    /// The larger end.
    pub fn to(&self) -> (r: usize)
        ensures
            r == self.to_spec(),
    {
        if self.anchor <= self.head {
            self.head
        } else {
            self.anchor
        }
    }

    pub fn direction(&self) -> (r: Direction)
        ensures
            r == self.direction_spec(),
    {
        if self.head < self.anchor {
            Direction::Backward
        } else {
            Direction::Forward
        }
    }

    pub fn with_direction(self, d: Direction) -> (r: Range)
        ensures
            r == self.with_direction_spec(d),
    {
        let same = match (self.direction(), d) {
            (Direction::Forward, Direction::Forward) => true,
            (Direction::Backward, Direction::Backward) => true,
            _ => false,
        };
        if same {
            self
        } else {
            Range { anchor: self.head, head: self.anchor }
        }
    }
}

/// The char range of the byte span `[start_byte, end_byte)` of `text`,
/// oriented in direction `d`.
pub open spec fn span_range(text: Seq<char>, start_byte: int, end_byte: int, d: Direction) -> Range {
    Range {
        anchor: char_of_byte(text, start_byte) as usize,
        head: char_of_byte(text, end_byte) as usize,
    }.with_direction_spec(d)
}

/// Building a range from its ends in either order gives the same range once
/// a direction is applied.
pub proof fn lemma_with_direction_ignores_order(a: usize, b: usize, d: Direction)
    ensures
        (Range { anchor: a, head: b }).with_direction_spec(d) == (Range {
            anchor: b,
            head: a,
        }).with_direction_spec(d),
{
}

impl Selection {
    pub fn new(ranges: Vec<Range>) -> (r: Selection)
        ensures
            r.ranges@ == ranges@,
    {
        Selection { ranges }
    }

    /// A selection of one range.
    pub fn single(anchor: usize, head: usize) -> (r: Selection)
        ensures
            r.ranges@ == seq![Range { anchor, head }],
    {
        let mut ranges: Vec<Range> = Vec::new();
        ranges.push(Range { anchor, head });
        Selection { ranges }
    }
}

} // verus!

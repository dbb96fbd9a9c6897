use vstd::prelude::*;

verus! {

/// A kind of highlighting.
#[derive(Hash, PartialEq, Eq, Structural, Clone, Copy, Debug)]
pub enum Tag {
    Cursor,
    Highlighted,
}

/// A tag over the bytes `start_idx` (inclusive) to `end_idx` (exclusive) of
/// a text.
#[derive(PartialEq, Eq, Structural, Clone, Copy, Debug)]
pub struct TextTag {
    pub tag: Tag,
    pub start_idx: usize,
    pub end_idx: usize,
}

/// Tags are ordered by start, then by end.
pub open spec fn tag_le(a: TextTag, b: TextTag) -> bool {
    a.start_idx < b.start_idx || (a.start_idx == b.start_idx && a.end_idx <= b.end_idx)
}

impl TextTag {
    pub fn new(tag: Tag, start_idx: usize, end_idx: usize) -> (r: TextTag)
        ensures
            r == (TextTag { tag, start_idx, end_idx }),
    {
        TextTag { tag, start_idx, end_idx }
    }

    pub fn tag(&self) -> (r: Tag)
        ensures
            r == self.tag,
    {
        self.tag
    }

    pub fn start_idx(&self) -> (r: usize)
        ensures
            r == self.start_idx,
    {
        self.start_idx
    }

    pub fn end_idx(&self) -> (r: usize)
        ensures
            r == self.end_idx,
    {
        self.end_idx
    }

    /// Whether `self` comes no later than `other` in the order of tags.
    pub fn le(&self, other: &TextTag) -> (r: bool)
        ensures
            r == tag_le(*self, *other),
    {
        self.start_idx < other.start_idx || (self.start_idx == other.start_idx && self.end_idx
            <= other.end_idx)
    }
}

} // verus!

//! The editor-protocol values that the library computes with.
use vstd::prelude::*;

verus! {

/// A zero-based line and character offset in a document.
#[derive(Debug, Clone, Copy, PartialEq, Eq, Structural)]
pub struct Position {
    pub line: u32,
    pub character: u32,
}

/// A range between two positions in a document.
#[derive(Debug, Clone, Copy, PartialEq, Eq, Structural)]
pub struct Range {
    pub start: Position,
    pub end: Position,
}

/// A range inside the document named by `uri`.
#[derive(Debug)]
pub struct Location {
    pub uri: String,
    pub range: Range,
}

impl Clone for Location {
    /// An equal location.
    fn clone(&self) -> (r: Self)
        ensures
            r == *self,
    {
        Location { uri: self.uri.clone(), range: self.range }
    }
}

/// Replace the text of `range` by `new_text`.
#[derive(Debug, Clone)]
pub struct TextEdit {
    pub range: Range,
    pub new_text: String,
}

/// Positions ordered by line, then by character.
pub open spec fn position_le(a: Position, b: Position) -> bool {
    a.line < b.line || (a.line == b.line && a.character <= b.character)
}

pub fn position_before_or_at(a: Position, b: Position) -> (r: bool)
    ensures
        r == position_le(a, b),
{
    a.line < b.line || (a.line == b.line && a.character <= b.character)
}

} // verus!

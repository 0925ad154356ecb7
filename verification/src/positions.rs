//! Editor positions (line and character) turned into byte offsets of a text.
use vstd::prelude::*;
use crate::protocol::Position;
use crate::text::{
    byte_len, char_utf8_width, chars_of, lemma_byte_len_take_step, lines, lines_of,
};

verus! {

/// Why a position has no offset in a text.
#[derive(Debug, Clone, Copy, PartialEq, Eq, Structural)]
pub enum PositionError {
    /// The text has no such line.
    LineOutOfRange,
    /// The line is shorter than the position's character.
    CharacterOutOfRange,
    /// No character of the text sits at the position.
    OutOfBounds,
    /// The offset does not fit in a `usize`.
    TooLarge,
}

/// Bytes of the first `i` lines, each counted with one line feed.
pub open spec fn bytes_before_line(ls: Seq<Seq<char>>, i: int) -> int
    decreases i,
{
    if i <= 0 {
        0
    } else {
        bytes_before_line(ls, i - 1) + byte_len(ls[i - 1]) + 1
    }
}

/// The offset of a position, counting lines as `str::lines` yields them and
/// characters as `char`s: `None` when the line, or the character on it, is
/// beyond the text.
pub open spec fn line_offset_of(content: Seq<char>, pos: Position) -> Option<int> {
    let ls = lines_of(content);
    if pos.line >= ls.len() {
        None
    } else if pos.character > ls[pos.line as int].len() {
        None
    } else {
        Some(bytes_before_line(ls, pos.line as int) + byte_len(
            ls[pos.line as int].take(pos.character as int),
        ))
    }
}

/// Bytes of the first `k` characters of `s`, if they fit in a `usize`.
pub fn prefix_bytes(s: &[char], k: usize) -> (r: Option<usize>)
    requires
        k <= s@.len(),
    ensures
        r matches Some(n) ==> n == byte_len(s@.take(k as int)),
        r is None ==> byte_len(s@.take(k as int)) > usize::MAX,
{
    let mut acc: usize = 0;
    let mut i: usize = 0;
    assert(s@.take(0) =~= Seq::<char>::empty());
    while i < k
        invariant
            0 <= i <= k <= s@.len(),
            acc == byte_len(s@.take(i as int)),
        decreases k - i,
    {
        proof {
            lemma_byte_len_take_step(s@, i as int);
        }
        let w = char_utf8_width(s[i]);
        match acc.checked_add(w) {
            Some(v) => acc = v,
            None => {
                proof {
                    crate::text::lemma_byte_len_take_monotone(s@, i + 1, k as int);
                }
                return None;
            },
        }
        i = i + 1;
    }
    Some(acc)
}

/// The byte offset of `position` in `content` (lines as `str::lines` yields
/// them, characters counted as `char`s).
pub fn position_to_byte_offset(content: &str, position: Position) -> (r: Result<usize, PositionError>)
    ensures
        position.line >= lines_of(content@).len() <==> r == Err::<usize, PositionError>(
            PositionError::LineOutOfRange,
        ),
        position.line < lines_of(content@).len() && position.character > lines_of(
            content@,
        )[position.line as int].len() <==> r == Err::<usize, PositionError>(
            PositionError::CharacterOutOfRange,
        ),
        line_offset_of(content@, position) matches Some(o) ==> (if o <= usize::MAX {
            r == Ok::<usize, PositionError>(o as usize)
        } else {
            r == Err::<usize, PositionError>(PositionError::TooLarge)
        }),
{
    let text = chars_of(content);
    let ls = lines(text.as_slice());
    let ghost gl = lines_of(content@);
    let line_idx = position.line as usize;
    if line_idx >= ls.len() {
        return Err(PositionError::LineOutOfRange);
    }
    let char_idx = position.character as usize;
    if char_idx > ls[line_idx].len() {
        return Err(PositionError::CharacterOutOfRange);
    }
    let mut offset: usize = 0;
    let mut i: usize = 0;
    while i < line_idx
        invariant
            0 <= i <= line_idx < ls@.len(),
            ls@.len() == gl.len(),
            gl == lines_of(content@),
            forall|j: int| 0 <= j < ls@.len() ==> (#[trigger] ls@[j])@ == gl[j],
            offset == bytes_before_line(gl, i as int),
            line_idx == position.line,
            char_idx == position.character,
            char_idx <= gl[line_idx as int].len(),
        decreases line_idx - i,
    {
        let line = &ls[i];
        let n = match prefix_bytes(line.as_slice(), line.len()) {
            Some(n) => n,
            None => {
                assert(line@.take(line@.len() as int) =~= line@);
                proof {
                    lemma_bytes_before_monotone(gl, i + 1, line_idx as int);
                }
                return Err(PositionError::TooLarge);
            },
        };
        assert(line@.take(line@.len() as int) =~= line@);
        let step = match n.checked_add(1) {
            Some(v) => v,
            None => {
                proof {
                    lemma_bytes_before_monotone(gl, i + 1, line_idx as int);
                }
                return Err(PositionError::TooLarge);
            },
        };
        match offset.checked_add(step) {
            Some(v) => offset = v,
            None => {
                proof {
                    lemma_bytes_before_monotone(gl, i + 1, line_idx as int);
                }
                return Err(PositionError::TooLarge);
            },
        }
        i = i + 1;
    }
    let line = &ls[line_idx];
    let within = match prefix_bytes(line.as_slice(), char_idx) {
        Some(n) => n,
        None => return Err(PositionError::TooLarge),
    };
    match offset.checked_add(within) {
        Some(v) => Ok(v),
        None => Err(PositionError::TooLarge),
    }
}

pub proof fn lemma_bytes_before_monotone(ls: Seq<Seq<char>>, i: int, j: int)
    requires
        0 <= i <= j,
    ensures
        bytes_before_line(ls, i) <= bytes_before_line(ls, j),
    decreases j - i,
{
    if i < j {
        lemma_bytes_before_monotone(ls, i, j - 1);
    }
}

} // verus!

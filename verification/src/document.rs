//! Open documents: their text held in a rope, edited by the editor's changes,
//! and read back by position.
use vstd::prelude::*;
use crate::protocol::{Position, Range};
use crate::text::{
    byte_len, char_utf16_width, char_utf8_width, lemma_byte_len_take_step, utf16_len,
};

verus! {

/// ropey's `Rope`, opaque: the text it holds is `rope_text`.
#[verifier::external_type_specification]
#[verifier::external_body]
pub struct ExRope(ropey::Rope);

/// The text a rope holds.
pub uninterp spec fn rope_text(r: ropey::Rope) -> Seq<char>;

/// A line break, as ropey (with its default features) recognizes them, ends
/// just before index `i` of the text: LF, VT, FF, NEL, LS, PS, CR LF, or a CR
/// not followed by LF.
pub open spec fn break_ends_at(text: Seq<char>, i: int) -> bool {
    &&& 0 < i <= text.len()
    &&& {
        let c = text[i - 1];
        ||| c == '\n'
        ||| c == '\u{b}'
        ||| c == '\u{c}'
        ||| c == '\u{85}'
        ||| c == '\u{2028}'
        ||| c == '\u{2029}'
        ||| (c == '\r' && !(i < text.len() && text[i] == '\n'))
    }
}

/// How many line breaks end at or before index `n`.
pub open spec fn breaks_upto(text: Seq<char>, n: int) -> nat
    decreases n,
{
    if n <= 0 {
        0
    } else {
        breaks_upto(text, n - 1) + if break_ends_at(text, n) {
            1nat
        } else {
            0nat
        }
    }
}

/// How many lines ropey counts in a text: its line breaks, plus one.
pub open spec fn rope_line_count(text: Seq<char>) -> nat {
    breaks_upto(text, text.len() as int) + 1
}

/// The character index at which ropey starts line `line` of a text: the
/// start, or just after the line break that ends the line before; the text's
/// length for the line one past the last.
pub open spec fn rope_line_char_start(text: Seq<char>, line: nat) -> nat {
    if line == 0 {
        0
    } else if line >= rope_line_count(text) {
        text.len()
    } else {
        (choose|i: int| 0 < i <= text.len() && break_ends_at(text, i) && breaks_upto(text, i) == line) as nat
    }
}

/// The byte index at which ropey starts line `line` of a text.
pub open spec fn rope_line_start(text: Seq<char>, line: nat) -> nat {
    byte_len(text.take(rope_line_char_start(text, line) as int))
}

/// The characters of line `line` of a text, as ropey cuts it (its line break
/// included).
pub open spec fn rope_line(text: Seq<char>, line: nat) -> Seq<char> {
    text.subrange(rope_line_char_start(text, line) as int, rope_line_char_start(text, line + 1) as int)
}

/// The characters whose encoding lies within the first `b` bytes of `s`.
pub open spec fn floor_chars(s: Seq<char>, b: int) -> int
    decreases s.len(),
{
    if s.len() == 0 {
        0
    } else if byte_len(s) <= b {
        s.len() as int
    } else {
        floor_chars(s.drop_last(), b)
    }
}

/// The line of a text that ropey places byte index `byte` on: the line
/// breaks that end within the characters wholly before that byte.
pub open spec fn rope_byte_line(text: Seq<char>, byte: nat) -> nat {
    breaks_upto(text, floor_chars(text, byte as int))
}

/// `Rope::from_str`: the rope holds exactly the text.
#[verifier::external_body]
fn rope_from_str(text: &str) -> (r: ropey::Rope)
    ensures
        rope_text(r) == text@,
{
    ropey::Rope::from_str(text)
}

/// `Rope::to_string` (its `Display`): the text the rope holds.
#[verifier::external_body]
fn rope_to_string(r: &ropey::Rope) -> (s: String)
    ensures
        s@ == rope_text(*r),
{
    r.to_string()
}

/// `Rope::clone`: a rope holding the same text.
#[verifier::external_body]
fn rope_clone(r: &ropey::Rope) -> (c: ropey::Rope)
    ensures
        rope_text(c) == rope_text(*r),
{
    r.clone()
}

/// `Rope::len_chars`: the number of characters.
#[verifier::external_body]
fn rope_len_chars(r: &ropey::Rope) -> (n: usize)
    ensures
        n == rope_text(*r).len(),
{
    r.len_chars()
}

/// `Rope::len_bytes`: the length of the text in UTF-8 bytes.
#[verifier::external_body]
fn rope_len_bytes(r: &ropey::Rope) -> (n: usize)
    ensures
        n == byte_len(rope_text(*r)),
{
    r.len_bytes()
}

/// `Rope::len_lines`: the line breaks counted, plus one (see
/// `rope_line_count` for the breaks ropey recognizes).
#[verifier::external_body]
fn rope_len_lines(r: &ropey::Rope) -> (n: usize)
    ensures
        n == rope_line_count(rope_text(*r)),
        n >= 1,
{
    r.len_lines()
}

/// `Rope::line_to_byte`: where a line starts, in bytes; defined up to one past
/// the last line.
#[verifier::external_body]
fn rope_line_to_byte(r: &ropey::Rope, line: usize) -> (b: usize)
    requires
        line <= rope_line_count(rope_text(*r)),
    ensures
        b == rope_line_start(rope_text(*r), line as nat),
{
    r.line_to_byte(line)
}

/// `Rope::line_to_char`: where a line starts, in characters; defined up to
/// one past the last line.
#[verifier::external_body]
fn rope_line_to_char(r: &ropey::Rope, line: usize) -> (c: usize)
    requires
        line <= rope_line_count(rope_text(*r)),
    ensures
        c == rope_line_char_start(rope_text(*r), line as nat),
{
    r.line_to_char(line)
}

/// `Rope::line`, its characters in order.
#[verifier::external_body]
fn rope_line_chars(r: &ropey::Rope, line: usize) -> (v: Vec<char>)
    requires
        line < rope_line_count(rope_text(*r)),
    ensures
        v@ == rope_line(rope_text(*r), line as nat),
{
    r.line(line).chars().collect()
}

/// `Rope::byte_to_line`: the line holding a byte index (the last line for one
/// past the end): the line breaks that end before the byte, counted over the
/// characters wholly before it (a CR LF pair counts once, after its LF).
/// Also stated: that line is a line of the text and starts at or before the
/// byte.
#[verifier::external_body]
fn rope_byte_to_line(r: &ropey::Rope, byte: usize) -> (l: usize)
    requires
        byte <= byte_len(rope_text(*r)),
    ensures
        l == rope_byte_line(rope_text(*r), byte as nat),
        l < rope_line_count(rope_text(*r)),
        rope_line_start(rope_text(*r), l as nat) <= byte,
{
    r.byte_to_line(byte)
}

/// `Rope::remove` of a range of characters.
#[verifier::external_body]
fn rope_remove(r: &mut ropey::Rope, start: usize, end: usize)
    requires
        start <= end <= rope_text(*old(r)).len(),
    ensures
        rope_text(*final(r)) == rope_text(*old(r)).take(start as int) + rope_text(*old(r)).skip(
            end as int,
        ),
{
    r.remove(start..end)
}

/// `Rope::insert` of a text before a character index.
#[verifier::external_body]
fn rope_insert(r: &mut ropey::Rope, at: usize, text: &str)
    requires
        at <= rope_text(*old(r)).len(),
    ensures
        rope_text(*final(r)) == rope_text(*old(r)).take(at as int) + text@ + rope_text(
            *old(r),
        ).skip(at as int),
{
    r.insert(at, text)
}

/// `Rope::slice` of a range of characters, as a string.
#[verifier::external_body]
fn rope_slice_string(r: &ropey::Rope, start: usize, end: usize) -> (s: String)
    requires
        start <= end <= rope_text(*r).len(),
    ensures
        s@ == rope_text(*r).subrange(start as int, end as int),
{
    r.slice(start..end).to_string()
}

/// A document the editor has opened.
#[derive(Debug)]
pub struct Document {
    pub uri: String,
    /// The editor's version of the document.
    pub version: i32,
    pub content: ropey::Rope,
    pub language_id: String,
}

/// Why a document operation failed.
#[derive(Debug, Clone, Copy, PartialEq, Eq, Structural)]
pub enum DocumentError {
    /// The document has no such line.
    LineOutOfBounds,
    /// The offset is beyond the end of the document.
    OffsetOutOfBounds,
    /// A change's range ends before it starts.
    InvalidRange,
    /// An offset does not fit in a `usize`.
    TooLarge,
    /// The document is not open.
    NotOpen,
    /// A change's version is not above the document's.
    VersionOrdering,
}

/// The number of characters of `line` that the first `units` UTF-16 code
/// units reach: characters are taken while fewer than `units` have been counted.
pub open spec fn chars_for_units(line: Seq<char>, units: int) -> int
    decreases line.len(),
{
    if line.len() == 0 {
        0
    } else if utf16_len(line.drop_last()) >= units {
        chars_for_units(line.drop_last(), units)
    } else {
        line.len() as int
    }
}

/// The byte offset of a position: where its line starts, plus the bytes of
/// the characters its UTF-16 character offset reaches; `None` beyond the last line.
pub open spec fn offset_of(text: Seq<char>, position: Position) -> Option<int> {
    if position.line >= rope_line_count(text) {
        None
    } else {
        let line = rope_line(text, position.line as nat);
        Some(
            (rope_line_start(text, position.line as nat) + byte_len(
                line.take(chars_for_units(line, position.character as int)),
            )) as int,
        )
    }
}

proof fn lemma_chars_for_units(line: Seq<char>, units: int, k: int)
    requires
        0 <= k <= line.len(),
        forall|j: int| 0 <= j < k ==> utf16_len(#[trigger] line.take(j)) < units,
        k == line.len() || utf16_len(line.take(k)) >= units,
    ensures
        chars_for_units(line, units) == k,
    decreases line.len(),
{
    if line.len() > 0 {
        assert(line.take(line.len() as int) =~= line);
        let t = line.drop_last();
        if k < line.len() {
            assert forall|j: int| 0 <= j < k implies utf16_len(#[trigger] t.take(j)) < units by {
                assert(t.take(j) =~= line.take(j));
            }
            assert(t.take(k) =~= line.take(k));
            if k < t.len() {
                lemma_chars_for_units(t, units, k);
            } else {
                assert(t.take(t.len() as int) =~= t);
                lemma_chars_for_units(t, units, k);
            }
            crate::text::lemma_byte_len_take_step(line, line.len() - 1);
            lemma_utf16_take_monotone(line, k, line.len() - 1);
        } else {
            assert(line.take(line.len() - 1) =~= t);
            assert(utf16_len(t) < units);
        }
    }
}

/// A position's character offset counts UTF-16 code units: it reaches the
/// fewest characters of its line whose UTF-16 length is at least the offset,
/// or the whole line when the line is shorter.
pub proof fn law_utf16_character_offset(line: Seq<char>, units: int)
    ensures
        0 <= chars_for_units(line, units) <= line.len(),
        chars_for_units(line, units) == line.len() || utf16_len(line.take(chars_for_units(line, units))) >= units,
        forall|j: int| 0 <= j < chars_for_units(line, units) ==> utf16_len(#[trigger] line.take(j)) < units,
    decreases line.len(),
{
    if line.len() > 0 {
        let t = line.drop_last();
        law_utf16_character_offset(t, units);
        if utf16_len(t) >= units {
            let k = chars_for_units(t, units);
            assert(line.take(k) =~= t.take(k));
            assert forall|j: int| 0 <= j < k implies utf16_len(#[trigger] line.take(j)) < units by {
                assert(line.take(j) =~= t.take(j));
            }
        } else {
            assert forall|j: int| 0 <= j < line.len() implies utf16_len(#[trigger] line.take(j)) < units by {
                assert(line.take(j) =~= t.take(j));
                assert(t.take(t.len() as int) =~= t);
                lemma_utf16_take_monotone(t, j, t.len() as int);
            }
        }
    }
}

proof fn lemma_utf16_take_monotone(s: Seq<char>, j: int, k: int)
    requires
        0 <= j <= k <= s.len(),
    ensures
        utf16_len(s.take(j)) <= utf16_len(s.take(k)),
    decreases k - j,
{
    if j < k {
        lemma_byte_len_take_step(s, k - 1);
        lemma_utf16_take_monotone(s, j, k - 1);
    }
}

impl Document {
    /// A document opened with the given text.
    pub fn new(uri: String, version: i32, language_id: String, text: String) -> (r: Document)
        ensures
            r.uri == uri,
            r.version == version,
            r.language_id == language_id,
            rope_text(r.content) == text@,
    {
        Document { uri, version, content: rope_from_str(text.as_str()), language_id }
    }

    /// The full text.
    pub fn get_text(&self) -> (r: String)
        ensures
            r@ == rope_text(self.content),
    {
        rope_to_string(&self.content)
    }

    /// The byte offset of a position (its character counted in UTF-16 code
    /// units); an error beyond the last line.
    pub fn position_to_byte_offset(&self, position: Position) -> (r: Result<usize, DocumentError>)
        ensures
            r == offset_result(rope_text(self.content), position),
    {
        offset_in(&self.content, position)
    }
}

/// The result of asking a text for the offset of a position.
pub open spec fn offset_result(text: Seq<char>, position: Position) -> Result<usize, DocumentError> {
    match offset_of(text, position) {
        None => Err(DocumentError::LineOutOfBounds),
        Some(o) => if o <= usize::MAX {
            Ok(o as usize)
        } else {
            Err(DocumentError::TooLarge)
        },
    }
}

/// The character index of a position: where its line starts, plus the
/// characters its UTF-16 character offset reaches; `None` beyond the last line.
pub open spec fn char_index_of(text: Seq<char>, position: Position) -> Option<int> {
    if position.line >= rope_line_count(text) {
        None
    } else {
        let line = rope_line(text, position.line as nat);
        Some(
            rope_line_char_start(text, position.line as nat) + chars_for_units(
                line,
                position.character as int,
            ),
        )
    }
}

/// The result of asking a text for the character index of a position.
pub open spec fn index_result(text: Seq<char>, position: Position) -> Result<usize, DocumentError> {
    match char_index_of(text, position) {
        None => Err(DocumentError::LineOutOfBounds),
        Some(o) => if o <= usize::MAX {
            Ok(o as usize)
        } else {
            Err(DocumentError::TooLarge)
        },
    }
}

/// The character index of a position in the text of a rope.
fn index_in(content: &ropey::Rope, position: Position) -> (r: Result<usize, DocumentError>)
    ensures
        r == index_result(rope_text(*content), position),
{
    let ghost text = rope_text(*content);
    let line = position.line as usize;
    let count = rope_len_lines(content);
    if line >= count {
        return Err(DocumentError::LineOutOfBounds);
    }
    let line_start = rope_line_to_char(content, line);
    let chars = rope_line_chars(content, line);
    let character = position.character as u64;
    let mut units: u64 = 0;
    let mut k: usize = 0;
    assert(chars@.take(0) =~= Seq::<char>::empty());
    while k < chars.len()
        invariant
            forall|j: int| 0 <= j < k ==> utf16_len(#[trigger] chars@.take(j)) < character,
            0 <= k <= chars@.len(),
            units == utf16_len(chars@.take(k as int)),
            units <= character + 1,
            character == position.character,
        ensures
            k == chars@.len() || utf16_len(chars@.take(k as int)) >= character,
            forall|j: int| 0 <= j < k ==> utf16_len(#[trigger] chars@.take(j)) < character,
            0 <= k <= chars@.len(),
        decreases chars.len() - k,
    {
        if units >= character {
            break;
        }
        proof {
            lemma_byte_len_take_step(chars@, k as int);
        }
        units = units + char_utf16_width(chars[k]) as u64;
        k = k + 1;
    }
    proof {
        lemma_chars_for_units(chars@, character as int, k as int);
    }
    match line_start.checked_add(k) {
        Some(o) => Ok(o),
        None => Err(DocumentError::TooLarge),
    }
}

/// The byte offset of a position in the text of a rope.
fn offset_in(content: &ropey::Rope, position: Position) -> (r: Result<usize, DocumentError>)
    ensures
        r == offset_result(rope_text(*content), position),
{
    {
        let ghost text = rope_text(*content);
        let line = position.line as usize;
        let count = rope_len_lines(content);
        if line >= count {
            return Err(DocumentError::LineOutOfBounds);
        }
        let line_start = rope_line_to_byte(content, line);
        let chars = rope_line_chars(content, line);
        let character = position.character as u64;
        let mut units: u64 = 0;
        let mut bytes: usize = 0;
        let mut k: usize = 0;
        assert(chars@.take(0) =~= Seq::<char>::empty());
        while k < chars.len()
            invariant
                forall|j: int| 0 <= j < k ==> utf16_len(#[trigger] chars@.take(j)) < character,
                line < count,
                count == rope_line_count(text),
                line == position.line,
                text == rope_text(*content),
                chars@ == rope_line(text, line as nat),
                0 <= k <= chars@.len(),
                units == utf16_len(chars@.take(k as int)),
                bytes == byte_len(chars@.take(k as int)),
                units <= character + 1,
                character == position.character,
                line_start == rope_line_start(text, line as nat),
            ensures
                k == chars@.len() || utf16_len(chars@.take(k as int)) >= character,
                forall|j: int| 0 <= j < k ==> utf16_len(#[trigger] chars@.take(j)) < character,
                0 <= k <= chars@.len(),
                units == utf16_len(chars@.take(k as int)),
                bytes == byte_len(chars@.take(k as int)),
            decreases chars.len() - k,
        {
            if units >= character {
                break;
            }
            proof {
                lemma_byte_len_take_step(chars@, k as int);
            }
            let w = char_utf8_width(chars[k]);
            bytes = match bytes.checked_add(w) {
                Some(b) => b,
                None => {
                    proof {
                        lemma_chars_for_units_at_least(chars@, character as int, k + 1);
                        lemma_chars_for_units_bound(chars@, character as int);
                        crate::text::lemma_byte_len_take_monotone(
                            chars@,
                            k + 1,
                            chars_for_units(chars@, character as int),
                        );
                    }
                    return Err(DocumentError::TooLarge);
                },
            };
            units = units + char_utf16_width(chars[k]) as u64;
            k = k + 1;
        }
        proof {
            lemma_chars_for_units(chars@, character as int, k as int);
        }
        match line_start.checked_add(bytes) {
            Some(o) => Ok(o),
            None => Err(DocumentError::TooLarge),
        }
    }
}

proof fn lemma_chars_for_units_bound(line: Seq<char>, units: int)
    ensures
        0 <= chars_for_units(line, units) <= line.len(),
    decreases line.len(),
{
    if line.len() > 0 {
        lemma_chars_for_units_bound(line.drop_last(), units);
    }
}

/// Once fewer than `units` code units are counted after `k - 1` characters,
/// at least `k` characters are taken.
proof fn lemma_chars_for_units_at_least(line: Seq<char>, units: int, k: int)
    requires
        0 < k <= line.len(),
        utf16_len(line.take(k - 1)) < units,
    ensures
        chars_for_units(line, units) >= k,
    decreases line.len(),
{
    let t = line.drop_last();
    if utf16_len(t) >= units {
        if k == line.len() {
            assert(line.take(k - 1) =~= t);
        } else {
            assert(t.take(k - 1) =~= line.take(k - 1));
            lemma_chars_for_units_at_least(t, units, k);
        }
    }
}

/// A change the editor made to a document: the range replaced by the text,
/// or the whole document when there is no range.
#[derive(Debug, Clone)]
pub struct TextDocumentContentChangeEvent {
    pub range: Option<Range>,
    pub range_length: Option<u32>,
    pub text: String,
}

/// What applying changes to a text comes to.
pub enum ChangeOutcome {
    /// All applied; the resulting text.
    Applied(Seq<char>),
    /// A change failed; the text as the changes before it left it.
    Failed(Seq<char>),
    /// A change reaches beyond the text, which the rope refuses by panicking.
    Crash,
}

/// One change applied to a text: the characters between the positions of
/// the range's ends (their characters counted in UTF-16 code units) are
/// replaced by the new text.
pub open spec fn change_step(text: Seq<char>, range: Option<Range>, new_text: Seq<char>) -> ChangeOutcome {
    match range {
        None => ChangeOutcome::Applied(new_text),
        Some(r) => match (index_result(text, r.start), index_result(text, r.end)) {
            (Ok(a), Ok(b)) => if a > b {
                ChangeOutcome::Failed(text)
            } else if b > text.len() {
                ChangeOutcome::Crash
            } else {
                ChangeOutcome::Applied(text.take(a as int) + new_text + text.skip(b as int))
            },
            _ => ChangeOutcome::Failed(text),
        },
    }
}

/// The changes applied in order, stopping at the first that fails.
pub open spec fn changes_outcome(text: Seq<char>, changes: Seq<TextDocumentContentChangeEvent>) -> ChangeOutcome
    decreases changes.len(),
{
    if changes.len() == 0 {
        ChangeOutcome::Applied(text)
    } else {
        match changes_outcome(text, changes.drop_last()) {
            ChangeOutcome::Applied(t) => change_step(t, changes.last().range, changes.last().text@),
            other => other,
        }
    }
}

/// How one change went.
enum Step {
    Applied,
    Failed(DocumentError),
    WouldPanic,
}

/// Applies one change to a rope, or reports that the rope would refuse it.
fn apply_one(content: &mut ropey::Rope, change: &TextDocumentContentChangeEvent) -> (r: Step)
    ensures
        match change_step(rope_text(*old(content)), change.range, change.text@) {
            ChangeOutcome::Applied(t) => r is Applied && rope_text(*final(content)) == t,
            ChangeOutcome::Failed(t) => r is Failed && rope_text(*final(content)) == t,
            ChangeOutcome::Crash => r is WouldPanic && rope_text(*final(content)) == rope_text(
                *old(content),
            ),
        },
{
    match change.range {
        None => {
            *content = rope_from_str(change.text.as_str());
            Step::Applied
        },
        Some(range) => {
            let start = match index_in(content, range.start) {
                Ok(a) => a,
                Err(e) => return Step::Failed(e),
            };
            let end = match index_in(content, range.end) {
                Ok(b) => b,
                Err(e) => return Step::Failed(e),
            };
            if start > end {
                return Step::Failed(DocumentError::InvalidRange);
            }
            if end > rope_len_chars(content) {
                return Step::WouldPanic;
            }
            let ghost before = rope_text(*content);
            rope_remove(content, start, end);
            rope_insert(content, start, change.text.as_str());
            assert(rope_text(*content) =~= before.take(start as int) + change.text@ + before.skip(
                end as int,
            ));
            Step::Applied
        },
    }
}

impl Document {
    /// Whether applying the changes would stay within the text (so that the
    /// rope does not panic).
    pub fn changes_fit(&self, changes: &Vec<TextDocumentContentChangeEvent>) -> (r: bool)
        ensures
            r == !(changes_outcome(rope_text(self.content), changes@) is Crash),
    {
        let mut content = rope_clone(&self.content);
        let ghost text = rope_text(self.content);
        let mut i: usize = 0;
        assert(changes@.take(0) =~= Seq::<TextDocumentContentChangeEvent>::empty());
        while i < changes.len()
            invariant
                0 <= i <= changes@.len(),
                text == rope_text(self.content),
                changes_outcome(text, changes@.take(i as int)) == ChangeOutcome::Applied(
                    rope_text(content),
                ),
            decreases changes.len() - i,
        {
            assert(changes@.take(i + 1).drop_last() =~= changes@.take(i as int));
            match apply_one(&mut content, &changes[i]) {
                Step::Applied => {},
                Step::Failed(_) => {
                    proof {
                        lemma_outcome_settled(text, changes@, i + 1);
                    }
                    return true;
                },
                Step::WouldPanic => {
                    proof {
                        lemma_outcome_settled(text, changes@, i + 1);
                    }
                    return false;
                },
            }
            i = i + 1;
        }
        assert(changes@.take(changes@.len() as int) =~= changes@);
        true
    }

    /// Applies the editor's changes in order, after taking the new version; the
    /// first change that fails ends the work with an error.
    pub fn apply_changes(&mut self, version: i32, changes: Vec<TextDocumentContentChangeEvent>) -> (r:
        Result<(), DocumentError>)
        requires
            !(changes_outcome(rope_text(old(self).content), changes@) is Crash),
        ensures
            final(self).version == version,
            final(self).uri == old(self).uri,
            final(self).language_id == old(self).language_id,
            match changes_outcome(rope_text(old(self).content), changes@) {
                ChangeOutcome::Applied(t) => r is Ok && rope_text(final(self).content) == t,
                ChangeOutcome::Failed(t) => r is Err && rope_text(final(self).content) == t,
                ChangeOutcome::Crash => false,
            },
    {
        self.version = version;
        let ghost text = rope_text(self.content);
        let mut i: usize = 0;
        assert(changes@.take(0) =~= Seq::<TextDocumentContentChangeEvent>::empty());
        while i < changes.len()
            invariant
                0 <= i <= changes@.len(),
                self.version == version,
                self.uri == old(self).uri,
                self.language_id == old(self).language_id,
                text == rope_text(old(self).content),
                !(changes_outcome(text, changes@) is Crash),
                changes_outcome(text, changes@.take(i as int)) == ChangeOutcome::Applied(
                    rope_text(self.content),
                ),
            decreases changes.len() - i,
        {
            assert(changes@.take(i + 1).drop_last() =~= changes@.take(i as int));
            match apply_one(&mut self.content, &changes[i]) {
                Step::Applied => {},
                Step::Failed(e) => {
                    proof {
                        lemma_outcome_settled(text, changes@, i + 1);
                    }
                    return Err(e);
                },
                Step::WouldPanic => {
                    proof {
                        lemma_outcome_settled(text, changes@, i + 1);
                    }
                    return Err(DocumentError::OffsetOutOfBounds);
                },
            }
            i = i + 1;
        }
        assert(changes@.take(changes@.len() as int) =~= changes@);
        Ok(())
    }
}

/// Once a change fails or would panic, later changes change nothing of the outcome.
proof fn lemma_outcome_settled(text: Seq<char>, changes: Seq<TextDocumentContentChangeEvent>, i: int)
    requires
        0 < i <= changes.len(),
        !(changes_outcome(text, changes.take(i)) is Applied),
    ensures
        changes_outcome(text, changes) == changes_outcome(text, changes.take(i)),
    decreases changes.len() - i,
{
    if i < changes.len() {
        assert(changes.take(i + 1).drop_last() =~= changes.take(i));
        lemma_outcome_settled(text, changes, i + 1);
    } else {
        assert(changes.take(i) =~= changes);
    }
}

/// Slicing the text between the positions of a range's ends stays within the
/// text (the rope panics otherwise).
pub open spec fn range_fits(text: Seq<char>, range: Range) -> bool {
    match (index_result(text, range.start), index_result(text, range.end)) {
        (Ok(a), Ok(b)) => a <= b <= text.len(),
        _ => true,
    }
}

/// The number of characters of `line` that the first `bytes` bytes reach:
/// characters are taken while fewer than `bytes` bytes have been counted.
pub open spec fn chars_for_bytes(line: Seq<char>, bytes: int) -> int
    decreases line.len(),
{
    if line.len() == 0 {
        0
    } else if byte_len(line.drop_last()) >= bytes {
        chars_for_bytes(line.drop_last(), bytes)
    } else {
        line.len() as int
    }
}

proof fn lemma_chars_for_bytes(line: Seq<char>, bytes: int, k: int)
    requires
        0 <= k <= line.len(),
        forall|j: int| 0 <= j < k ==> byte_len(#[trigger] line.take(j)) < bytes,
        k == line.len() || byte_len(line.take(k)) >= bytes,
    ensures
        chars_for_bytes(line, bytes) == k,
    decreases line.len(),
{
    if line.len() > 0 {
        assert(line.take(line.len() as int) =~= line);
        let t = line.drop_last();
        if k < line.len() {
            assert forall|j: int| 0 <= j < k implies byte_len(#[trigger] t.take(j)) < bytes by {
                assert(t.take(j) =~= line.take(j));
            }
            assert(t.take(k) =~= line.take(k));
            if k == t.len() {
                assert(t.take(t.len() as int) =~= t);
            }
            lemma_chars_for_bytes(t, bytes, k);
            crate::text::lemma_byte_len_take_monotone(line, k, line.len() - 1);
        } else {
            assert(line.take(line.len() - 1) =~= t);
        }
    }
}

/// The position of a byte offset: its line, and the UTF-16 code units of
/// the characters the offset reaches within that line; `None` beyond the end.
pub open spec fn position_of(text: Seq<char>, offset: nat) -> Option<Position> {
    if offset > byte_len(text) {
        None
    } else {
        let line = rope_byte_line(text, offset);
        let chars = rope_line(text, line);
        let within = offset - rope_line_start(text, line);
        Some(
            Position {
                line: line as u32,
                character: utf16_len(chars.take(chars_for_bytes(chars, within))) as u32,
            },
        )
    }
}

proof fn lemma_breaks_monotone(text: Seq<char>, i: int, j: int)
    requires
        i <= j,
    ensures
        breaks_upto(text, i) <= breaks_upto(text, j),
    decreases j - i,
{
    if i < j {
        lemma_breaks_monotone(text, i, j - 1);
    }
}

proof fn lemma_break_exists(text: Seq<char>, n: int, l: nat)
    requires
        0 <= n <= text.len(),
        1 <= l <= breaks_upto(text, n),
    ensures
        exists|i: int| 0 < i <= n && break_ends_at(text, i) && breaks_upto(text, i) == l,
    decreases n,
{
    if n > 0 {
        if break_ends_at(text, n) && l == breaks_upto(text, n) {
        } else {
            lemma_break_exists(text, n - 1, l);
        }
    }
}

/// What ropey's line starts come to: line `l` starts after exactly `l` line
/// breaks (just after the last of them), and the lines follow one another.
proof fn lemma_line_start(text: Seq<char>, l: nat)
    requires
        l < rope_line_count(text),
    ensures
        rope_line_char_start(text, l) <= rope_line_char_start(text, l + 1) <= text.len(),
        breaks_upto(text, rope_line_char_start(text, l) as int) == l,
{
    let n = text.len() as int;
    let count = rope_line_count(text);
    if l > 0 {
        lemma_break_exists(text, n, l);
    }
    if l + 1 < count {
        lemma_break_exists(text, n, l + 1);
        let a = rope_line_char_start(text, l) as int;
        let b = rope_line_char_start(text, l + 1) as int;
        assert(breaks_upto(text, b) == l + 1);
        if b <= a {
            lemma_breaks_monotone(text, b, a);
        }
    }
}

proof fn lemma_breaks_flat(text: Seq<char>, a: int, k: int)
    requires
        0 <= a,
        0 <= k,
        forall|i: int| 0 < i <= k ==> !#[trigger] break_ends_at(text, a + i),
    ensures
        breaks_upto(text, a + k) == breaks_upto(text, a),
    decreases k,
{
    if k > 0 {
        assert(!break_ends_at(text, a + k));
        lemma_breaks_flat(text, a, k - 1);
    }
}

proof fn lemma_floor_chars(s: Seq<char>, j: int)
    requires
        0 <= j <= s.len(),
    ensures
        floor_chars(s, byte_len(s.take(j)) as int) == j,
    decreases s.len(),
{
    if s.len() > 0 {
        if j == s.len() {
            assert(s.take(j) =~= s);
        } else {
            assert(s.take(s.len() as int) =~= s);
            crate::text::lemma_byte_len_take_monotone(s, j, s.len() as int);
            assert(s.drop_last().take(j) =~= s.take(j));
            lemma_floor_chars(s.drop_last(), j);
        }
    }
}

proof fn lemma_utf16_strict(s: Seq<char>, j: int, k: int)
    requires
        0 <= j < k <= s.len(),
    ensures
        utf16_len(s.take(j)) < utf16_len(s.take(k)),
    decreases k - j,
{
    lemma_byte_len_take_step(s, k - 1);
    if j < k - 1 {
        lemma_utf16_strict(s, j, k - 1);
    }
}

/// A position and its offset go back and forth: a position on line `l`,
/// `k` characters into it with no line break among them (its character
/// counted in UTF-16 code units), has the byte offset of those characters,
/// and that offset gives the position back.
pub proof fn law_position_round_trip(text: Seq<char>, pos: Position, k: int)
    requires
        pos.line < rope_line_count(text),
        0 <= k <= rope_line(text, pos.line as nat).len(),
        forall|i: int| 0 < i <= k ==> !#[trigger] break_ends_at(text, rope_line_char_start(text, pos.line as nat) + i),
        pos.character == utf16_len(rope_line(text, pos.line as nat).take(k)),
    ensures
        offset_of(text, pos) == Some(byte_len(text.take(rope_line_char_start(text, pos.line as nat) + k)) as int),
        position_of(text, byte_len(text.take(rope_line_char_start(text, pos.line as nat) + k))) == Some(pos),
{
    let l = pos.line as nat;
    let st = rope_line_char_start(text, l) as int;
    let line = rope_line(text, l);
    lemma_line_start(text, l);
    let units = pos.character as int;
    assert forall|j: int| 0 <= j < k implies utf16_len(#[trigger] line.take(j)) < units by {
        lemma_utf16_strict(line, j, k);
    }
    lemma_chars_for_units(line, units, k);
    assert(text.take(st + k) =~= text.take(st) + line.take(k));
    crate::text::lemma_byte_len_add(text.take(st), line.take(k));
    let o = byte_len(text.take(st + k));
    assert(offset_of(text, pos) == Some(o as int));
    crate::text::lemma_byte_len_take_monotone(text, st + k, text.len() as int);
    assert(text.take(text.len() as int) =~= text);
    lemma_floor_chars(text, st + k);
    lemma_breaks_flat(text, st, k);
    assert(rope_byte_line(text, o) == l);
    let within = o - rope_line_start(text, l);
    assert(within == byte_len(line.take(k)));
    assert forall|j: int| 0 <= j < k implies byte_len(#[trigger] line.take(j)) < within by {
        crate::text::lemma_byte_len_take_monotone(line, j, k);
    }
    lemma_chars_for_bytes(line, within, k);
}

impl Document {
    /// Whether the text of a range can be sliced (see `range_fits`).
    pub fn range_fits(&self, range: Range) -> (r: bool)
        ensures
            r == range_fits(rope_text(self.content), range),
    {
        match (index_in(&self.content, range.start), index_in(&self.content, range.end)) {
            (Ok(a), Ok(b)) => a <= b && b <= rope_len_chars(&self.content),
            _ => true,
        }
    }

    /// The text of a range when it can be sliced (see `range_fits`); `None`
    /// when slicing would reach beyond the text.
    pub fn get_range_text_checked(&self, range: Range) -> (r: Option<Result<String, DocumentError>>)
        ensures
            r is None <==> !range_fits(rope_text(self.content), range),
            r matches Some(x) ==> match (index_result(rope_text(self.content), range.start), index_result(
                rope_text(self.content),
                range.end,
            )) {
                (Ok(a), Ok(b)) => x matches Ok(s) && s@ == rope_text(self.content).subrange(
                    a as int,
                    b as int,
                ),
                (Err(e), _) => x == Err::<String, DocumentError>(e),
                (Ok(_), Err(e)) => x == Err::<String, DocumentError>(e),
            },
    {
        if !self.range_fits(range) {
            return None;
        }
        Some(self.get_range_text(range))
    }

    /// The text between the positions of a range's ends.
    pub fn get_range_text(&self, range: Range) -> (r: Result<String, DocumentError>)
        requires
            range_fits(rope_text(self.content), range),
        ensures
            match (index_result(rope_text(self.content), range.start), index_result(
                rope_text(self.content),
                range.end,
            )) {
                (Ok(a), Ok(b)) => r matches Ok(s) && s@ == rope_text(self.content).subrange(
                    a as int,
                    b as int,
                ),
                (Err(e), _) => r == Err::<String, DocumentError>(e),
                (Ok(_), Err(e)) => r == Err::<String, DocumentError>(e),
            },
    {
        let start = match index_in(&self.content, range.start) {
            Ok(a) => a,
            Err(e) => return Err(e),
        };
        let end = match index_in(&self.content, range.end) {
            Ok(b) => b,
            Err(e) => return Err(e),
        };
        Ok(rope_slice_string(&self.content, start, end))
    }

    /// The position of a byte offset (see `position_of`); an error beyond the
    /// end of the document.
    pub fn byte_offset_to_position(&self, offset: usize) -> (r: Result<Position, DocumentError>)
        ensures
            match position_of(rope_text(self.content), offset as nat) {
                None => r == Err::<Position, DocumentError>(DocumentError::OffsetOutOfBounds),
                Some(p) => r == Ok::<Position, DocumentError>(p),
            },
    {
        let ghost text = rope_text(self.content);
        if offset > rope_len_bytes(&self.content) {
            return Err(DocumentError::OffsetOutOfBounds);
        }
        let line = rope_byte_to_line(&self.content, offset);
        let line_start = rope_line_to_byte(&self.content, line);
        let within = offset - line_start;
        let chars = rope_line_chars(&self.content, line);
        let mut units: u128 = 0;
        let mut bytes: u128 = 0;
        let mut k: usize = 0;
        assert(chars@.take(0) =~= Seq::<char>::empty());
        while k < chars.len()
            invariant
                forall|j: int| 0 <= j < k ==> byte_len(#[trigger] chars@.take(j)) < within,
                bytes <= within as u128 + 4,
                0 <= k <= chars@.len(),
                units == utf16_len(chars@.take(k as int)),
                bytes == byte_len(chars@.take(k as int)),
                units <= 2 * k,
                k <= chars@.len(),
            ensures
                k == chars@.len() || byte_len(chars@.take(k as int)) >= within,
                forall|j: int| 0 <= j < k ==> byte_len(#[trigger] chars@.take(j)) < within,
                0 <= k <= chars@.len(),
                units == utf16_len(chars@.take(k as int)),
            decreases chars.len() - k,
        {
            if bytes >= within as u128 {
                break;
            }
            proof {
                lemma_byte_len_take_step(chars@, k as int);
                crate::text::lemma_byte_len_take_monotone(chars@, 0, k as int);
            }
            bytes = bytes + char_utf8_width(chars[k]) as u128;
            units = units + char_utf16_width(chars[k]) as u128;
            k = k + 1;
        }
        proof {
            lemma_chars_for_bytes(chars@, within as int, k as int);
        }
        Ok(Position { line: line as u32, character: units as u32 })
    }
}

/// lru's `LruCache`, opaque: what a cache holds is given by the names below
/// (and by those of `performance`).
#[verifier::external_type_specification]
#[verifier::external_body]
#[verifier::reject_recursive_types(K)]
#[verifier::reject_recursive_types(V)]
#[verifier::reject_recursive_types(S)]
pub struct ExLruCache<K, V, S>(lru::LruCache<K, V, S>);

/// The hasher lru's caches use by default, opaque; declared so that a cache
/// with its default hasher can stand in signatures.
#[verifier::external_type_specification]
#[verifier::external_body]
pub struct ExLruHasher(lru::DefaultHasher);

/// A document by its URI, version, text and language identifier.
pub type DocumentModel = (Seq<char>, i32, Seq<char>, Seq<char>);

pub open spec fn document_model(d: Document) -> DocumentModel {
    (d.uri@, d.version, rope_text(d.content), d.language_id@)
}

/// The documents a cache of closed documents holds, as (URI, version, text),
/// the least recently used first.
pub uninterp spec fn cached_documents(c: lru::LruCache<String, Document>) -> Seq<DocumentModel>;

/// How many documents a cache of closed documents may hold.
pub uninterp spec fn cache_capacity(c: lru::LruCache<String, Document>) -> nat;

/// The entry of `uri` in a list of documents, or -1.
pub open spec fn entry_index(e: Seq<DocumentModel>, uri: Seq<char>) -> int
    decreases e.len(),
{
    if e.len() == 0 {
        -1
    } else if e.last().0 == uri {
        e.len() - 1
    } else {
        entry_index(e.drop_last(), uri)
    }
}

/// The list without the entry of `uri`.
pub open spec fn without_entry(e: Seq<DocumentModel>, uri: Seq<char>) -> Seq<DocumentModel> {
    let j = entry_index(e, uri);
    if j >= 0 {
        e.remove(j)
    } else {
        e
    }
}

/// A cache after `put`: the entry becomes the most recent one; a new entry
/// in a full cache evicts the least recent one.
pub open spec fn cache_put(e: Seq<DocumentModel>, cap: nat, d: DocumentModel) -> Seq<DocumentModel> {
    if entry_index(e, d.0) >= 0 {
        without_entry(e, d.0).push(d)
    } else if e.len() >= cap {
        e.drop_first().push(d)
    } else {
        e.push(d)
    }
}

/// A cache after a read of `uri`: that entry becomes the most recent one.
pub open spec fn cache_touch(e: Seq<DocumentModel>, uri: Seq<char>) -> Seq<DocumentModel> {
    let j = entry_index(e, uri);
    if j >= 0 {
        e.remove(j).push(e[j])
    } else {
        e
    }
}

/// No URI is both among the open documents and in the cache.
pub open spec fn open_apart_from_cache(open: Seq<DocumentModel>, cache: Seq<DocumentModel>) -> bool {
    forall|u: Seq<char>| #[trigger] entry_index(open, u) >= 0 ==> entry_index(cache, u) == -1
}

/// URIs are distinct.
pub open spec fn distinct_entries(e: Seq<DocumentModel>) -> bool {
    forall|a: int, b: int| 0 <= a < e.len() && 0 <= b < e.len() && a != b ==> (#[trigger] e[a]).0 != (#[trigger] e[b]).0
}

/// `LruCache::new` with a non-zero capacity.
#[verifier::external_body]
fn cache_new(cap: usize) -> (c: lru::LruCache<String, Document>)
    requires
        cap > 0,
    ensures
        cached_documents(c).len() == 0,
        cache_capacity(c) == cap,
{
    lru::LruCache::new(std::num::NonZeroUsize::new(cap).unwrap())
}

/// `LruCache::pop`: the entry of the key leaves the cache.
#[verifier::external_body]
fn cache_pop(c: &mut lru::LruCache<String, Document>, uri: &str)
    ensures
        cached_documents(*final(c)) == without_entry(cached_documents(*old(c)), uri@),
        cache_capacity(*final(c)) == cache_capacity(*old(c)),
{
    let _ = c.pop(uri);
}

/// `LruCache::put` (see `cache_put`).
#[verifier::external_body]
fn cache_put_document(c: &mut lru::LruCache<String, Document>, uri: String, d: Document)
    requires
        d.uri == uri,
    ensures
        cached_documents(*final(c)) == cache_put(
            cached_documents(*old(c)),
            cache_capacity(*old(c)),
            document_model(d),
        ),
        cache_capacity(*final(c)) == cache_capacity(*old(c)),
{
    let _ = c.put(uri, d);
}

/// `LruCache::get`: the document of the key, which becomes the most recent entry.
#[verifier::external_body]
fn cache_get<'a>(c: &'a mut lru::LruCache<String, Document>, uri: &str) -> (r: Option<&'a Document>)
    ensures
        entry_index(cached_documents(*old(c)), uri@) == -1 ==> r is None,
        entry_index(cached_documents(*old(c)), uri@) >= 0 ==> (r matches Some(d) && document_model(*d)
            == cached_documents(*old(c))[entry_index(cached_documents(*old(c)), uri@)]),
        cached_documents(*final(c)) == cache_touch(cached_documents(*old(c)), uri@),
        cache_capacity(*final(c)) == cache_capacity(*old(c)),
{
    c.get(uri)
}

/// `LruCache::contains`: whether the key has an entry (its recency unchanged).
#[verifier::external_body]
fn cache_contains(c: &lru::LruCache<String, Document>, uri: &str) -> (r: bool)
    ensures
        r == (entry_index(cached_documents(*c), uri@) >= 0),
{
    c.contains(uri)
}

/// `LruCache::len`.
#[verifier::external_body]
fn cache_len(c: &lru::LruCache<String, Document>) -> (r: usize)
    ensures
        r == cached_documents(*c).len(),
{
    c.len()
}

/// `LruCache::cap`.
#[verifier::external_body]
fn cache_cap(c: &lru::LruCache<String, Document>) -> (r: usize)
    ensures
        r == cache_capacity(*c),
{
    c.cap().get()
}

pub proof fn lemma_entry_index(e: Seq<DocumentModel>, uri: Seq<char>)
    ensures
        -1 <= entry_index(e, uri) < e.len(),
        entry_index(e, uri) >= 0 ==> e[entry_index(e, uri)].0 == uri,
        entry_index(e, uri) == -1 ==> forall|k: int| 0 <= k < e.len() ==> (#[trigger] e[k]).0 != uri,
    decreases e.len(),
{
    if e.len() > 0 {
        lemma_entry_index(e.drop_last(), uri);
        if e.last().0 != uri {
            assert forall|k: int| 0 <= k < e.len() - 1 implies e[k] == e.drop_last()[k] by {}
        }
    }
}

/// Statistics of a document manager.
#[derive(Debug, Clone)]
pub struct DocumentManagerStats {
    pub open_documents: usize,
    pub cached_documents: usize,
}

/// The documents the editor has open, and a cache of recently closed ones.
pub struct DocumentManager {
    pub open_documents: Vec<Document>,
    pub closed_documents: lru::LruCache<String, Document>,
}

/// The open documents, in order.
pub open spec fn open_models(v: Seq<Document>) -> Seq<DocumentModel> {
    v.map_values(|d: Document| document_model(d))
}

/// The open documents after `did_open`: the document replaces an open one of
/// its URI, or is added last.
pub open spec fn open_put(e: Seq<DocumentModel>, d: DocumentModel) -> Seq<DocumentModel> {
    let j = entry_index(e, d.0);
    if j >= 0 {
        e.update(j, d)
    } else {
        e.push(d)
    }
}

impl DocumentManager {
    /// The manager's invariant: open documents and cached documents each have
    /// distinct URIs, and the cache is within a non-zero capacity.
    pub open spec fn wf(&self) -> bool {
        &&& distinct_entries(open_models(self.open_documents@))
        &&& distinct_entries(cached_documents(self.closed_documents))
        &&& open_apart_from_cache(open_models(self.open_documents@), cached_documents(self.closed_documents))
        &&& cached_documents(self.closed_documents).len() <= cache_capacity(self.closed_documents)
        &&& cache_capacity(self.closed_documents) >= 1
    }

    pub open spec fn open_view(&self) -> Seq<DocumentModel> {
        open_models(self.open_documents@)
    }

    pub open spec fn cache_view(&self) -> Seq<DocumentModel> {
        cached_documents(self.closed_documents)
    }

    /// A manager with nothing open and an empty cache of the given capacity.
    pub fn new(cache_size: usize) -> (r: DocumentManager)
        requires
            cache_size > 0,
        ensures
            r.wf(),
            r.open_view().len() == 0,
            r.cache_view().len() == 0,
            cache_capacity(r.closed_documents) == cache_size,
    {
        let r = DocumentManager { open_documents: Vec::new(), closed_documents: cache_new(cache_size) };
        assert(r.open_view() =~= Seq::<DocumentModel>::empty());
        r
    }

    fn find_open(&self, uri: &str) -> (r: Option<usize>)
        ensures
            r matches Some(j) ==> j == entry_index(self.open_view(), uri@),
            r is None ==> entry_index(self.open_view(), uri@) == -1,
    {
        let ghost g = self.open_view();
        let mut k: usize = self.open_documents.len();
        assert(g.take(g.len() as int) =~= g);
        while k > 0
            invariant
                0 <= k <= self.open_documents@.len(),
                g == self.open_view(),
                entry_index(g, uri@) == entry_index(g.take(k as int), uri@),
            decreases k,
        {
            assert(g.take(k as int).drop_last() =~= g.take(k - 1));
            assert(g[k - 1].0 == self.open_documents@[k - 1].uri@);
            if crate::ordering::str_equal(self.open_documents[k - 1].uri.as_str(), uri) {
                return Some(k - 1);
            }
            k = k - 1;
        }
        None
    }

    /// The editor opened a document: it leaves the cache and is open with the
    /// given text and version.
    pub fn did_open(&mut self, uri: String, version: i32, language_id: String, text: String) -> (r:
        Result<(), DocumentError>)
        requires
            old(self).wf(),
        ensures
            r is Ok,
            final(self).wf(),
            final(self).cache_view() == without_entry(old(self).cache_view(), uri@),
            final(self).open_view() == open_put(old(self).open_view(), (uri@, version, text@, language_id@)),
    {
        proof {
            lemma_entry_index(self.open_view(), uri@);
            lemma_entry_index(self.cache_view(), uri@);
        }
        cache_pop(&mut self.closed_documents, uri.as_str());
        proof {
            lemma_without_keeps_distinct(old(self).cache_view(), uri@);
        }
        let ghost before = self.open_view();
        let found = self.find_open(uri.as_str());
        let document = Document::new(uri, version, language_id, text);
        match found {
            Some(j) => {
                self.open_documents.set(j, document);
                assert(self.open_view() =~= before.update(j as int, (uri@, version, text@, language_id@)));
            },
            None => {
                self.open_documents.push(document);
                assert(self.open_view() =~= before.push((uri@, version, text@, language_id@)));
            },
        }
        proof {
            let d = (uri@, version, text@, language_id@);
            assert forall|v: Seq<char>| #[trigger] entry_index(self.open_view(), v) >= 0 implies entry_index(
                self.cache_view(),
                v,
            ) == -1 by {
                lemma_has_open_put(before, d, v);
                lemma_entry_index(self.cache_view(), v);
                if entry_index(self.cache_view(), v) >= 0 {
                    lemma_has_without(old(self).cache_view(), uri@, v);
                }
            }
        }
        Ok(())
    }

    /// Whether changes to the open document `uri`, at a newer version, stay
    /// within its text; true when there is nothing to apply them to.
    pub fn changes_fit(&self, uri: &str, version: i32, changes: &Vec<TextDocumentContentChangeEvent>) -> (r:
        bool)
        ensures
            r == change_allowed(self.open_view(), uri@, version, changes@),
    {
        proof {
            lemma_entry_index(self.open_view(), uri@);
        }
        match self.find_open(uri) {
            Some(j) => {
                let d = &self.open_documents[j];
                assert(self.open_view()[j as int] == document_model(*d));
                if version <= d.version {
                    true
                } else {
                    d.changes_fit(changes)
                }
            },
            None => true,
        }
    }

    /// `did_change` when the changes stay within the document's text (see
    /// `changes_fit`); `None`, with nothing changed, when a change would reach
    /// beyond it.
    pub fn did_change_checked(&mut self, uri: &str, version: i32, changes: Vec<TextDocumentContentChangeEvent>) -> (r:
        Option<Result<(), DocumentError>>)
        requires
            old(self).wf(),
        ensures
            final(self).wf(),
            final(self).cache_view() == old(self).cache_view(),
            r is None <==> !change_allowed(old(self).open_view(), uri@, version, changes@),
            r is None ==> final(self).open_view() == old(self).open_view(),
            r matches Some(x) ==> {
                &&& entry_index(old(self).open_view(), uri@) == -1 ==> x == Err::<(), DocumentError>(
                    DocumentError::NotOpen,
                ) && final(self).open_view() == old(self).open_view()
                &&& entry_index(old(self).open_view(), uri@) >= 0 ==> {
                    let j = entry_index(old(self).open_view(), uri@);
                    let d = old(self).open_view()[j];
                    if version <= d.1 {
                        x == Err::<(), DocumentError>(DocumentError::VersionOrdering)
                            && final(self).open_view() == old(self).open_view()
                    } else {
                        match changes_outcome(d.2, changes@) {
                            ChangeOutcome::Applied(t) => x is Ok && final(self).open_view()
                                == old(self).open_view().update(j, (uri@, version, t, d.3)),
                            ChangeOutcome::Failed(t) => x is Err && final(self).open_view()
                                == old(self).open_view().update(j, (uri@, version, t, d.3)),
                            ChangeOutcome::Crash => false,
                        }
                    }
                }
            },
    {
        if !self.changes_fit(uri, version, &changes) {
            return None;
        }
        Some(self.did_change(uri, version, changes))
    }

    /// The editor changed an open document: the version must grow, then the
    /// changes are applied (see `Document::apply_changes`).
    pub fn did_change(&mut self, uri: &str, version: i32, changes: Vec<TextDocumentContentChangeEvent>) -> (r:
        Result<(), DocumentError>)
        requires
            old(self).wf(),
            change_allowed(old(self).open_view(), uri@, version, changes@),
        ensures
            final(self).wf(),
            final(self).cache_view() == old(self).cache_view(),
            entry_index(old(self).open_view(), uri@) == -1 ==> r == Err::<(), DocumentError>(
                DocumentError::NotOpen,
            ) && final(self).open_view() == old(self).open_view(),
            entry_index(old(self).open_view(), uri@) >= 0 ==> {
                let j = entry_index(old(self).open_view(), uri@);
                let d = old(self).open_view()[j];
                if version <= d.1 {
                    r == Err::<(), DocumentError>(DocumentError::VersionOrdering)
                        && final(self).open_view() == old(self).open_view()
                } else {
                    match changes_outcome(d.2, changes@) {
                        ChangeOutcome::Applied(t) => r is Ok && final(self).open_view()
                            == old(self).open_view().update(j, (uri@, version, t, d.3)),
                        ChangeOutcome::Failed(t) => r is Err && final(self).open_view()
                            == old(self).open_view().update(j, (uri@, version, t, d.3)),
                        ChangeOutcome::Crash => false,
                    }
                }
            },
    {
        proof {
            lemma_entry_index(self.open_view(), uri@);
        }
        let j = match self.find_open(uri) {
            Some(j) => j,
            None => return Err(DocumentError::NotOpen),
        };
        if version <= self.open_documents[j].version {
            return Err(DocumentError::VersionOrdering);
        }
        let ghost before = self.open_view();
        let mut d = self.open_documents.remove(j);
        let r = d.apply_changes(version, changes);
        self.open_documents.insert(j, d);
        proof {
            assert(before[j as int].0 == uri@);
            assert(self.open_view() =~= before.update(j as int, document_model(d)));
            assert forall|a: int, b: int|
                0 <= a < self.open_view().len() && 0 <= b < self.open_view().len() && a != b
                    implies (#[trigger] self.open_view()[a]).0 != (#[trigger] self.open_view()[b]).0 by {
                assert(self.open_view()[a].0 == before[a].0);
                assert(self.open_view()[b].0 == before[b].0);
            }
            assert forall|v: Seq<char>| #[trigger] entry_index(self.open_view(), v) >= 0 implies entry_index(
                self.cache_view(),
                v,
            ) == -1 by {
                lemma_has_update_same_key(before, j as int, document_model(d), v);
            }
        }
        r
    }

    /// The editor closed a document: it moves from the open documents to the
    /// cache; closing a document that is not open changes nothing.
    pub fn did_close(&mut self, uri: &str) -> (r: Result<(), DocumentError>)
        requires
            old(self).wf(),
        ensures
            r is Ok,
            final(self).wf(),
            entry_index(old(self).open_view(), uri@) == -1 ==> final(self).open_view() == old(
                self,
            ).open_view() && final(self).cache_view() == old(self).cache_view(),
            entry_index(old(self).open_view(), uri@) >= 0 ==> {
                let j = entry_index(old(self).open_view(), uri@);
                &&& final(self).open_view() == old(self).open_view().remove(j)
                &&& final(self).cache_view() == cache_put(
                    old(self).cache_view(),
                    cache_capacity(old(self).closed_documents),
                    old(self).open_view()[j],
                )
            },
    {
        proof {
            lemma_entry_index(self.open_view(), uri@);
        }
        match self.find_open(uri) {
            Some(j) => {
                let ghost before = self.open_view();
                let d = self.open_documents.remove(j);
                assert(self.open_view() =~= before.remove(j as int));
                assert(document_model(d) == before[j as int]);
                proof {
                    lemma_put_keeps_distinct(
                        self.cache_view(),
                        cache_capacity(self.closed_documents),
                        document_model(d),
                    );
                    lemma_remove_keeps_distinct(before, j as int);
                }
                let ghost cache_before = self.cache_view();
                let ghost cap = cache_capacity(self.closed_documents);
                let ghost dm = document_model(d);
                let key = d.uri.clone();
                cache_put_document(&mut self.closed_documents, key, d);
                proof {
                    assert forall|v: Seq<char>| #[trigger] entry_index(self.open_view(), v) >= 0 implies entry_index(
                        self.cache_view(),
                        v,
                    ) == -1 by {
                        lemma_has_remove(before, j as int, v);
                        lemma_entry_index(self.cache_view(), v);
                        if entry_index(self.cache_view(), v) >= 0 {
                            lemma_has_put(cache_before, cap, dm, v);
                            lemma_entry_index(before, uri@);
                            assert(dm.0 == uri@);
                        }
                    }
                    assert(open_apart_from_cache(self.open_view(), self.cache_view()));
                }
                Ok(())
            },
            None => Ok(()),
        }
    }

    /// The open document of `uri`.
    pub fn get_document(&self, uri: &str) -> (r: Option<&Document>)
        ensures
            entry_index(self.open_view(), uri@) == -1 ==> r is None,
            entry_index(self.open_view(), uri@) >= 0 ==> (r matches Some(d) && document_model(*d)
                == self.open_view()[entry_index(self.open_view(), uri@)]),
    {
        proof {
            lemma_entry_index(self.open_view(), uri@);
        }
        match self.find_open(uri) {
            Some(j) => Some(&self.open_documents[j]),
            None => None,
        }
    }

    /// The document of `uri`, open or cached; a cached one becomes the most
    /// recently used.
    pub fn get_any_document(&mut self, uri: &str) -> (r: Option<&Document>)
        requires
            old(self).wf(),
        ensures
            final(self).wf(),
            final(self).open_view() == old(self).open_view(),
            entry_index(old(self).open_view(), uri@) >= 0 ==> (r matches Some(d) && document_model(*d)
                == old(self).open_view()[entry_index(old(self).open_view(), uri@)]
                && final(self).cache_view() == old(self).cache_view()),
            entry_index(old(self).open_view(), uri@) == -1 ==> {
                &&& final(self).cache_view() == cache_touch(old(self).cache_view(), uri@)
                &&& entry_index(old(self).cache_view(), uri@) == -1 ==> r is None
                &&& entry_index(old(self).cache_view(), uri@) >= 0 ==> (r matches Some(d)
                    && document_model(*d) == old(self).cache_view()[entry_index(
                    old(self).cache_view(),
                    uri@,
                )])
            },
    {
        proof {
            lemma_entry_index(self.open_view(), uri@);
            lemma_entry_index(self.cache_view(), uri@);
            lemma_touch_keeps_distinct(self.cache_view(), uri@);
        }
        match self.find_open(uri) {
            Some(j) => Some(&self.open_documents[j]),
            None => {
                proof {
                    let touched = cache_touch(self.cache_view(), uri@);
                    assert forall|v: Seq<char>| #[trigger] entry_index(self.open_view(), v) >= 0 implies entry_index(
                        touched,
                        v,
                    ) == -1 by {
                        lemma_entry_index(touched, v);
                        if entry_index(touched, v) >= 0 {
                            lemma_has_touch(self.cache_view(), uri@, v);
                        }
                    }
                }
                cache_get(&mut self.closed_documents, uri)
            },
        }
    }

    /// The URIs of the open documents.
    pub fn get_open_documents(&self) -> (r: Vec<String>)
        ensures
            r@.map_values(|u: String| u@) == self.open_view().map_values(|d: DocumentModel| d.0),
    {
        let mut r: Vec<String> = Vec::new();
        let mut i: usize = 0;
        while i < self.open_documents.len()
            invariant
                0 <= i <= self.open_documents@.len(),
                r@.map_values(|u: String| u@) == self.open_view().take(i as int).map_values(
                    |d: DocumentModel| d.0,
                ),
            decreases self.open_documents.len() - i,
        {
            let ghost before = r@;
            let u = self.open_documents[i].uri.clone();
            r.push(u);
            proof {
                assert(self.open_view()[i as int].0 == self.open_documents@[i as int].uri@);
                assert(r@.map_values(|u: String| u@) =~= before.map_values(|u: String| u@).push(u@));
                assert(self.open_view().take(i + 1).map_values(|d: DocumentModel| d.0) =~= self.open_view().take(
                    i as int,
                ).map_values(|d: DocumentModel| d.0).push(self.open_view()[i as int].0));
            }
            i = i + 1;
        }
        assert(self.open_view().take(self.open_view().len() as int) =~= self.open_view());
        r
    }

    /// How many documents are open and how many are cached.
    pub fn get_stats(&self) -> (r: DocumentManagerStats)
        ensures
            r.open_documents == self.open_view().len(),
            r.cached_documents == self.cache_view().len(),
    {
        DocumentManagerStats {
            open_documents: self.open_documents.len(),
            cached_documents: cache_len(&self.closed_documents),
        }
    }

    /// Whether `uri` is open.
    pub fn is_document_open(&self, uri: &str) -> (r: bool)
        ensures
            r == (entry_index(self.open_view(), uri@) >= 0),
    {
        self.find_open(uri).is_some()
    }

    /// Whether `uri` is in the cache of closed documents.
    pub fn is_document_cached(&mut self, uri: &str) -> (r: bool)
        ensures
            r == (entry_index(old(self).cache_view(), uri@) >= 0),
            *final(self) == *old(self),
    {
        cache_contains(&self.closed_documents, uri)
    }

    /// The text of the open document `uri`.
    pub fn get_open_document_content(&self, uri: &str) -> (r: Option<String>)
        ensures
            entry_index(self.open_view(), uri@) == -1 ==> r is None,
            entry_index(self.open_view(), uri@) >= 0 ==> (r matches Some(t) && t@
                == self.open_view()[entry_index(self.open_view(), uri@)].2),
    {
        match self.get_document(uri) {
            Some(d) => Some(d.get_text()),
            None => None,
        }
    }

    /// The text of the document `uri`, open or cached.
    pub fn get_document_content(&mut self, uri: &str) -> (r: Option<String>)
        requires
            old(self).wf(),
        ensures
            final(self).wf(),
            final(self).open_view() == old(self).open_view(),
            document_read(old(self).open_view(), old(self).cache_view(), uri@) is None ==> r is None,
            document_read(old(self).open_view(), old(self).cache_view(), uri@) matches Some(p) ==> (r matches Some(
                s,
            ) && s@ == p.1),
    {
        proof {
            lemma_entry_index(self.open_view(), uri@);
            lemma_entry_index(self.cache_view(), uri@);
        }
        let found = self.get_any_document(uri);
        match found {
            Some(d) => Some(d.get_text()),
            None => None,
        }
    }

    /// The version of the document `uri`, open or cached.
    pub fn get_document_version(&mut self, uri: &str) -> (r: Option<i32>)
        requires
            old(self).wf(),
        ensures
            final(self).wf(),
            final(self).open_view() == old(self).open_view(),
            document_read(old(self).open_view(), old(self).cache_view(), uri@) is None ==> r is None,
            document_read(old(self).open_view(), old(self).cache_view(), uri@) matches Some(p) ==> r == Some(
                p.0,
            ),
    {
        proof {
            lemma_entry_index(self.open_view(), uri@);
            lemma_entry_index(self.cache_view(), uri@);
        }
        let found = self.get_any_document(uri);
        match found {
            Some(d) => Some(d.version),
            None => None,
        }
    }

    /// The cache's capacity and how many documents it holds.
    pub fn get_cache_info(&self) -> (r: (usize, usize))
        ensures
            r.0 == cache_capacity(self.closed_documents),
            r.1 == self.cache_view().len(),
    {
        (cache_cap(&self.closed_documents), cache_len(&self.closed_documents))
    }

    /// Every open document's URI and text.
    pub fn get_all_open_documents(&self) -> (r: Vec<(String, String)>)
        ensures
            r@.map_values(|p: (String, String)| (p.0@, p.1@)) == self.open_view().map_values(
                |d: DocumentModel| (d.0, d.2),
            ),
    {
        let mut r: Vec<(String, String)> = Vec::new();
        let mut i: usize = 0;
        while i < self.open_documents.len()
            invariant
                0 <= i <= self.open_documents@.len(),
                r@.map_values(|p: (String, String)| (p.0@, p.1@)) == self.open_view().take(
                    i as int,
                ).map_values(|d: DocumentModel| (d.0, d.2)),
            decreases self.open_documents.len() - i,
        {
            let d = &self.open_documents[i];
            let ghost before = r@;
            let pair = (d.uri.clone(), d.get_text());
            r.push(pair);
            proof {
                assert(self.open_view()[i as int] == document_model(*d));
                assert(r@.map_values(|p: (String, String)| (p.0@, p.1@)) =~= before.map_values(
                    |p: (String, String)| (p.0@, p.1@),
                ).push((pair.0@, pair.1@)));
                assert(self.open_view().take(i + 1).map_values(|d: DocumentModel| (d.0, d.2))
                    =~= self.open_view().take(i as int).map_values(|d: DocumentModel| (d.0, d.2)).push(
                    (self.open_view()[i as int].0, self.open_view()[i as int].2),
                ));
            }
            i = i + 1;
        }
        assert(self.open_view().take(self.open_view().len() as int) =~= self.open_view());
        r
    }
}

/// A change of `uri` to `version` is allowed when it would be refused
/// anyway, or when its changes stay within the document's text.
pub open spec fn change_allowed(
    open: Seq<DocumentModel>,
    uri: Seq<char>,
    version: i32,
    changes: Seq<TextDocumentContentChangeEvent>,
) -> bool {
    let j = entry_index(open, uri);
    j >= 0 && version > open[j].1 ==> !(changes_outcome(open[j].2, changes) is Crash)
}

/// What reading `uri` gives: the version and text of the open document, else
/// of the cached one.
pub open spec fn document_read(open: Seq<DocumentModel>, cache: Seq<DocumentModel>, uri: Seq<char>) -> Option<
    (i32, Seq<char>),
> {
    let j = entry_index(open, uri);
    if j >= 0 {
        Some((open[j].1, open[j].2))
    } else {
        let k = entry_index(cache, uri);
        if k >= 0 {
            Some((cache[k].1, cache[k].2))
        } else {
            None
        }
    }
}

proof fn lemma_without_keeps_distinct(e: Seq<DocumentModel>, uri: Seq<char>)
    requires
        distinct_entries(e),
    ensures
        distinct_entries(without_entry(e, uri)),
        without_entry(e, uri).len() <= e.len(),
        entry_index(without_entry(e, uri), uri) == -1,
{
    lemma_entry_index(e, uri);
    let w = without_entry(e, uri);
    let j = entry_index(e, uri);
    if j >= 0 {
        assert forall|a: int| 0 <= a < w.len() implies (#[trigger] w[a]).0 != uri by {
            if a < j {
                assert(w[a] == e[a]);
            } else {
                assert(w[a] == e[a + 1]);
            }
        }
        assert forall|a: int, b: int| 0 <= a < w.len() && 0 <= b < w.len() && a != b implies (#[trigger] w[a]).0
            != (#[trigger] w[b]).0 by {
            let ia = if a < j { a } else { a + 1 };
            let ib = if b < j { b } else { b + 1 };
            assert(w[a] == e[ia]);
            assert(w[b] == e[ib]);
        }
    }
    lemma_entry_index(w, uri);
}

proof fn lemma_remove_keeps_distinct(e: Seq<DocumentModel>, j: int)
    requires
        distinct_entries(e),
        0 <= j < e.len(),
    ensures
        distinct_entries(e.remove(j)),
{
    let w = e.remove(j);
    assert forall|a: int, b: int| 0 <= a < w.len() && 0 <= b < w.len() && a != b implies (#[trigger] w[a]).0
        != (#[trigger] w[b]).0 by {
        let ia = if a < j { a } else { a + 1 };
        let ib = if b < j { b } else { b + 1 };
        assert(w[a] == e[ia]);
        assert(w[b] == e[ib]);
    }
}

proof fn lemma_put_keeps_distinct(e: Seq<DocumentModel>, cap: nat, d: DocumentModel)
    requires
        distinct_entries(e),
        e.len() <= cap,
        cap >= 1,
    ensures
        distinct_entries(cache_put(e, cap, d)),
        cache_put(e, cap, d).len() <= cap,
{
    lemma_entry_index(e, d.0);
    if entry_index(e, d.0) >= 0 {
        lemma_without_keeps_distinct(e, d.0);
        let w = without_entry(e, d.0);
        lemma_entry_index(w, d.0);
        assert forall|a: int, b: int|
            0 <= a < w.push(d).len() && 0 <= b < w.push(d).len() && a != b implies (#[trigger] w.push(d)[a]).0
                != (#[trigger] w.push(d)[b]).0 by {
            if a < w.len() && b < w.len() {
                assert(w.push(d)[a] == w[a]);
                assert(w.push(d)[b] == w[b]);
            } else if a < w.len() {
                assert(w.push(d)[a] == w[a]);
            } else if b < w.len() {
                assert(w.push(d)[b] == w[b]);
            }
        }
    } else if e.len() >= cap {
        let w = e.drop_first();
        assert forall|a: int, b: int|
            0 <= a < w.push(d).len() && 0 <= b < w.push(d).len() && a != b implies (#[trigger] w.push(d)[a]).0
                != (#[trigger] w.push(d)[b]).0 by {
            if a < w.len() {
                assert(w.push(d)[a] == e[a + 1]);
            }
            if b < w.len() {
                assert(w.push(d)[b] == e[b + 1]);
            }
        }
    } else {
        assert forall|a: int, b: int|
            0 <= a < e.push(d).len() && 0 <= b < e.push(d).len() && a != b implies (#[trigger] e.push(d)[a]).0
                != (#[trigger] e.push(d)[b]).0 by {
            if a < e.len() {
                assert(e.push(d)[a] == e[a]);
            }
            if b < e.len() {
                assert(e.push(d)[b] == e[b]);
            }
        }
    }
}

proof fn lemma_touch_keeps_distinct(e: Seq<DocumentModel>, uri: Seq<char>)
    requires
        distinct_entries(e),
    ensures
        distinct_entries(cache_touch(e, uri)),
        cache_touch(e, uri).len() == e.len(),
{
    lemma_entry_index(e, uri);
    let j = entry_index(e, uri);
    if j >= 0 {
        lemma_remove_keeps_distinct(e, j);
        let w = e.remove(j);
        assert forall|a: int, b: int|
            0 <= a < w.push(e[j]).len() && 0 <= b < w.push(e[j]).len() && a != b implies (#[trigger] w.push(e[j])[a]).0
                != (#[trigger] w.push(e[j])[b]).0 by {
            if a < w.len() {
                let ia = if a < j { a } else { a + 1 };
                assert(w.push(e[j])[a] == e[ia]);
            }
            if b < w.len() {
                let ib = if b < j { b } else { b + 1 };
                assert(w.push(e[j])[b] == e[ib]);
            }
        }
    }
}

/// Opening a document makes it readable, with the text and version it was
/// opened with, and takes it out of the cache.
pub proof fn law_read_after_open(
    open: Seq<DocumentModel>,
    cache: Seq<DocumentModel>,
    uri: Seq<char>,
    version: i32,
    text: Seq<char>,
    language_id: Seq<char>,
)
    requires
        distinct_entries(cache),
    ensures
        document_read(open_put(open, (uri, version, text, language_id)), without_entry(cache, uri), uri) == Some(
            (version, text),
        ),
        entry_index(without_entry(cache, uri), uri) == -1,
{
    lemma_entry_index(open, uri);
    lemma_without_keeps_distinct(cache, uri);
    let o = open_put(open, (uri, version, text, language_id));
    lemma_entry_index(o, uri);
    let j = entry_index(open, uri);
    if j >= 0 {
        lemma_entry_index_after(open, uri);
        assert forall|k: int| j < k < o.len() implies (#[trigger] o[k]).0 != uri by {
            assert(o[k] == open[k]);
        }
        lemma_entry_index_exact(o, uri, j);
    } else {
        assert(o.last().0 == uri);
    }
}

/// No entry after the one found has the URI.
proof fn lemma_entry_index_after(e: Seq<DocumentModel>, uri: Seq<char>)
    ensures
        forall|k: int| entry_index(e, uri) < k < e.len() ==> (#[trigger] e[k]).0 != uri,
    decreases e.len(),
{
    lemma_entry_index(e, uri);
    if e.len() > 0 && e.last().0 != uri {
        lemma_entry_index(e.drop_last(), uri);
        lemma_entry_index_after(e.drop_last(), uri);
        assert forall|k: int| entry_index(e, uri) < k < e.len() implies (#[trigger] e[k]).0 != uri by {
            if k < e.len() - 1 {
                assert(e[k] == e.drop_last()[k]);
            }
        }
    }
}

/// An entry with the URI and none after it is the one found.
proof fn lemma_entry_index_exact(e: Seq<DocumentModel>, uri: Seq<char>, j: int)
    requires
        0 <= j < e.len(),
        e[j].0 == uri,
        forall|k: int| j < k < e.len() ==> (#[trigger] e[k]).0 != uri,
    ensures
        entry_index(e, uri) == j,
    decreases e.len(),
{
    if j < e.len() - 1 {
        assert(e.last() == e[e.len() - 1]);
        assert forall|k: int| j < k < e.drop_last().len() implies (#[trigger] e.drop_last()[k]).0 != uri by {
            assert(e.drop_last()[k] == e[k]);
        }
        lemma_entry_index_exact(e.drop_last(), uri, j);
    }
}

/// The entry found for a URI is its last one.
proof fn lemma_entry_index_last(e: Seq<DocumentModel>, uri: Seq<char>, j: int)
    requires
        0 <= j < e.len(),
        e[j].0 == uri,
    ensures
        entry_index(e, uri) >= j,
    decreases e.len(),
{
    if e.last().0 != uri {
        lemma_entry_index_last(e.drop_last(), uri, j);
    }
}

/// Closing an open document keeps it readable from the cache, with the text
/// and version it had.
pub proof fn law_read_after_close(open: Seq<DocumentModel>, cache: Seq<DocumentModel>, cap: nat, uri: Seq<char>)
    requires
        distinct_entries(open),
        distinct_entries(cache),
        cache.len() <= cap,
        cap >= 1,
        entry_index(open, uri) >= 0,
    ensures
        ({
            let j = entry_index(open, uri);
            document_read(open.remove(j), cache_put(cache, cap, open[j]), uri) == Some(
                (open[j].1, open[j].2),
            )
        }),
{
    lemma_entry_index(open, uri);
    let j = entry_index(open, uri);
    let o = open.remove(j);
    assert forall|k: int| 0 <= k < o.len() implies (#[trigger] o[k]).0 != uri by {
        let ik = if k < j { k } else { k + 1 };
        assert(o[k] == open[ik]);
    }
    lemma_entry_index(o, uri);
    let c = cache_put(cache, cap, open[j]);
    lemma_put_keeps_distinct(cache, cap, open[j]);
    lemma_entry_index(c, uri);
    assert(c.last() == open[j]);
    lemma_entry_index_last(c, uri, c.len() - 1);
}

proof fn lemma_entry_index_same_keys(a: Seq<DocumentModel>, b: Seq<DocumentModel>, uri: Seq<char>)
    requires
        a.len() == b.len(),
        forall|i: int| 0 <= i < a.len() ==> (#[trigger] a[i]).0 == b[i].0,
    ensures
        entry_index(a, uri) == entry_index(b, uri),
    decreases a.len(),
{
    if a.len() > 0 {
        assert(a.last().0 == b.last().0);
        lemma_entry_index_same_keys(a.drop_last(), b.drop_last(), uri);
    }
}

/// The cases of a change to the open documents (see `did_change`): a change
/// to a document that is not open, or one whose version is not newer, leaves
/// the documents as they were; otherwise only the document named changes: it
/// takes the new version and the text the changes give (up to a failing
/// change) and keeps its URI and language, every other document stays as it
/// was, and every URI is found where it was.
pub proof fn law_change_touches_only_its_document(
    open: Seq<DocumentModel>,
    uri: Seq<char>,
    version: i32,
    text: Seq<char>,
)
    requires
        entry_index(open, uri) >= 0,
        version > open[entry_index(open, uri)].1,
    ensures
        ({
            let j = entry_index(open, uri);
            let o = open.update(j, (uri, version, text, open[j].3));
            &&& o.len() == open.len()
            &&& o[j].0 == open[j].0 && o[j].1 == version && o[j].2 == text && o[j].3 == open[j].3
            &&& forall|k: int| 0 <= k < open.len() && k != j ==> #[trigger] o[k] == open[k]
            &&& forall|v: Seq<char>| #[trigger] entry_index(o, v) == entry_index(open, v)
        }),
{
    lemma_entry_index(open, uri);
    let j = entry_index(open, uri);
    let o = open.update(j, (uri, version, text, open[j].3));
    assert forall|v: Seq<char>| #[trigger] entry_index(o, v) == entry_index(open, v) by {
        assert forall|i: int| 0 <= i < o.len() implies (#[trigger] o[i]).0 == open[i].0 by {}
        lemma_entry_index_same_keys(o, open, v);
    }
}

/// No URI is both open and cached: the manager's invariant, which every
/// operation keeps, holds it.
pub proof fn law_no_uri_open_and_cached(m: DocumentManager, uri: Seq<char>)
    requires
        m.wf(),
    ensures
        !(entry_index(m.open_view(), uri) >= 0 && entry_index(m.cache_view(), uri) >= 0),
{
}

proof fn lemma_has_remove(e: Seq<DocumentModel>, j: int, v: Seq<char>)
    requires
        distinct_entries(e),
        0 <= j < e.len(),
        entry_index(e.remove(j), v) >= 0,
    ensures
        v != e[j].0,
        entry_index(e, v) >= 0,
{
    let w = e.remove(j);
    lemma_entry_index(w, v);
    lemma_entry_index(e, v);
    let k = entry_index(w, v);
    if k < j {
        assert(w[k] == e[k]);
    } else {
        assert(w[k] == e[k + 1]);
    }
}

proof fn lemma_has_without(e: Seq<DocumentModel>, u: Seq<char>, v: Seq<char>)
    requires
        distinct_entries(e),
        entry_index(without_entry(e, u), v) >= 0,
    ensures
        v != u,
        entry_index(e, v) >= 0,
{
    lemma_entry_index(e, u);
    let j = entry_index(e, u);
    if j >= 0 {
        lemma_has_remove(e, j, v);
    } else {
        lemma_entry_index(e, v);
    }
}

proof fn lemma_has_put(e: Seq<DocumentModel>, cap: nat, d: DocumentModel, v: Seq<char>)
    requires
        distinct_entries(e),
        cap >= 1,
        entry_index(cache_put(e, cap, d), v) >= 0,
    ensures
        v == d.0 || entry_index(e, v) >= 0,
{
    let c = cache_put(e, cap, d);
    lemma_entry_index(c, v);
    lemma_entry_index(e, v);
    let k = entry_index(c, v);
    if k < c.len() - 1 {
        if entry_index(e, d.0) >= 0 {
            let w = without_entry(e, d.0);
            assert(c[k] == w[k]);
            lemma_entry_index(w, v);
            if entry_index(w, v) >= 0 {
                lemma_has_without(e, d.0, v);
            }
        } else if e.len() >= cap {
            assert(c == e.drop_first().push(d));
            assert(c[k] == e.drop_first()[k]);
            assert(c[k] == e[k + 1]);
            assert(e[k + 1].0 == v);
        } else {
            assert(c[k] == e[k]);
            assert(e[k].0 == v);
        }
    }
}

proof fn lemma_has_touch(e: Seq<DocumentModel>, u: Seq<char>, v: Seq<char>)
    requires
        distinct_entries(e),
        entry_index(cache_touch(e, u), v) >= 0,
    ensures
        entry_index(e, v) >= 0,
{
    let c = cache_touch(e, u);
    lemma_entry_index(c, v);
    lemma_entry_index(e, v);
    lemma_entry_index(e, u);
    let j = entry_index(e, u);
    let k = entry_index(c, v);
    if j >= 0 {
        if k < c.len() - 1 {
            let w = e.remove(j);
            assert(c[k] == w[k]);
            lemma_entry_index(w, v);
            lemma_has_remove(e, j, v);
        } else {
            assert(c[k] == e[j]);
        }
    }
}

proof fn lemma_has_open_put(e: Seq<DocumentModel>, d: DocumentModel, v: Seq<char>)
    requires
        entry_index(open_put(e, d), v) >= 0,
    ensures
        v == d.0 || entry_index(e, v) >= 0,
{
    let o = open_put(e, d);
    lemma_entry_index(o, v);
    lemma_entry_index(e, v);
    lemma_entry_index(e, d.0);
    let k = entry_index(o, v);
    let j = entry_index(e, d.0);
    if j >= 0 {
        if k != j {
            assert(o[k] == e[k]);
        }
    } else if k < e.len() {
        assert(o[k] == e[k]);
    }
}

proof fn lemma_has_update_same_key(e: Seq<DocumentModel>, j: int, x: DocumentModel, v: Seq<char>)
    requires
        0 <= j < e.len(),
        x.0 == e[j].0,
        entry_index(e.update(j, x), v) >= 0,
    ensures
        entry_index(e, v) >= 0,
{
    let o = e.update(j, x);
    lemma_entry_index(o, v);
    lemma_entry_index(e, v);
    let k = entry_index(o, v);
    if k != j {
        assert(o[k] == e[k]);
    }
}

/// A change without a range replaces the whole text: reading the document
/// back gives exactly the new text.
pub proof fn law_full_change_read_back(text: Seq<char>, new_text: Seq<char>)
    ensures
        change_step(text, None, new_text) == ChangeOutcome::Applied(new_text),
{
}

/// A change of a range whose ends lie in order within the text replaces
/// exactly the characters between their positions.
pub proof fn law_range_change(text: Seq<char>, range: Range, new_text: Seq<char>, a: usize, b: usize)
    requires
        index_result(text, range.start) == Ok::<usize, DocumentError>(a),
        index_result(text, range.end) == Ok::<usize, DocumentError>(b),
        a <= b <= text.len(),
    ensures
        change_step(text, Some(range), new_text) == ChangeOutcome::Applied(
            text.take(a as int) + new_text + text.skip(b as int),
        ),
{
}

} // verus!

//! Renaming a symbol: the text at a range, the range offered for renaming,
//! conflicts with existing symbols, and the edits of a rename.
use vstd::prelude::*;
use vstd::string::*;
use crate::ordering::{insert_ranked, stable_sort, stable_sorted, str_equal, Ranked};
use crate::protocol::{position_le, Location, Position, Range, TextEdit};
use crate::symbols::Symbol;
use crate::text::{
    byte_len, chars_in_bytes, chars_of, is_byte_boundary, lines, lines_of, locate_byte_offset,
    string_from_chars,
};

verus! {

/// Why a rename step failed.
#[derive(Debug, Clone, PartialEq, Eq, Structural)]
pub enum RenameError {
    /// The range starts below the last line.
    StartLineOutOfRange,
    /// The characters of a one-line range are beyond the line or reversed.
    InvalidCharacterRange,
    /// A symbol of the new name already exists in the file.
    NameConflict,
    /// The new name is no valid Gren name (see `validate_new_name`).
    InvalidName,
    /// The symbol's name starts with a lowercase letter (a function or a
    /// value) and the new name is no value name.
    ValueNameExpected,
    /// The symbol's name starts with an uppercase letter (a type, a
    /// constructor or a module) and the new name is no type name.
    TypeNameExpected,
    /// The document of the first reference is not among the open documents.
    DocumentNotFound,
}

/// The lines from `from` up to (not including) `to`, each preceded by a line feed.
pub open spec fn middle_lines(ls: Seq<Seq<char>>, from: int, to: int) -> Seq<char>
    decreases to - from,
{
    if to <= from {
        Seq::empty()
    } else {
        middle_lines(ls, from, to - 1) + seq!['\n'] + ls[to - 1]
    }
}

/// Slicing a range out of the text does not panic: character offsets fall on
/// character boundaries within their lines, and the lines spanned exist.
pub open spec fn range_sliceable(content: Seq<char>, range: Range) -> bool {
    let ls = lines_of(content);
    let s = range.start;
    let e = range.end;
    if s.line >= ls.len() {
        true
    } else if s.line == e.line {
        let line = ls[s.line as int];
        (s.character > byte_len(line) || e.character > byte_len(line) || s.character > e.character)
            || (is_byte_boundary(line, s.character as int) && is_byte_boundary(line, e.character as int))
    } else {
        let first = ls[s.line as int];
        &&& s.line < u32::MAX
        &&& s.character <= byte_len(first) && is_byte_boundary(first, s.character as int)
        &&& (e.line <= ls.len() || e.line <= s.line + 1)
        &&& e.line < ls.len() ==> e.character <= byte_len(ls[e.line as int]) && is_byte_boundary(
            ls[e.line as int],
            e.character as int,
        )
    }
}

/// The text of a range, its character offsets counted in bytes of their
/// lines: `None` when the range starts below the last line, or when a
/// one-line range is beyond its line or reversed.  A range over several lines
/// runs from its start to the end of its end line's part, as far as lines exist.
pub open spec fn range_text(content: Seq<char>, range: Range) -> Option<Seq<char>> {
    let ls = lines_of(content);
    let s = range.start;
    let e = range.end;
    if s.line >= ls.len() {
        None
    } else if s.line == e.line {
        let line = ls[s.line as int];
        if s.character > byte_len(line) || e.character > byte_len(line) || s.character > e.character {
            None
        } else {
            Some(
                line.subrange(
                    chars_in_bytes(line, s.character as int),
                    chars_in_bytes(line, e.character as int),
                ),
            )
        }
    } else {
        let first = ls[s.line as int];
        Some(
            first.skip(chars_in_bytes(first, s.character as int)) + middle_lines(
                ls,
                s.line + 1,
                e.line as int,
            ) + if e.line < ls.len() {
                seq!['\n'] + ls[e.line as int].take(
                    chars_in_bytes(ls[e.line as int], e.character as int),
                )
            } else {
                Seq::empty()
            },
        )
    }
}

/// Where byte offset `b` falls in `line`, when it is within it.
fn char_index(line: &[char], b: u32) -> (r: Option<usize>)
    ensures
        r is None <==> b > byte_len(line@),
        r matches Some(k) ==> 0 <= k <= line@.len() && (is_byte_boundary(line@, b as int) ==> k
            == chars_in_bytes(line@, b as int)) && byte_len(line@.take(k as int)) >= b && (k > 0
            ==> byte_len(line@.take(k - 1)) < b),
{
    locate_byte_offset(line, b as usize)
}

fn push_range(out: &mut Vec<char>, s: &[char], from: usize, to: usize)
    requires
        from <= to <= s@.len(),
    ensures
        final(out)@ == old(out)@ + s@.subrange(from as int, to as int),
{
    let mut i: usize = from;
    let ghost start = out@;
    while i < to
        invariant
            from <= i <= to <= s@.len(),
            out@ == start + s@.subrange(from as int, i as int),
        decreases to - i,
    {
        out.push(s[i]);
        i = i + 1;
        assert(out@ =~= start + s@.subrange(from as int, i as int));
    }
}

/// Whether the text of `range` can be sliced out of `content` (see
/// `range_sliceable`); a caller that gets `false` faces what slicing would do.
pub fn range_is_sliceable(content: &str, range: Range) -> (r: bool)
    ensures
        r == range_sliceable(content@, range),
{
    let text = chars_of(content);
    let ls = lines(text.as_slice());
    let ghost gl = lines_of(content@);
    let s = range.start;
    let e = range.end;
    if s.line as usize >= ls.len() {
        return true;
    }
    let first = &ls[s.line as usize];
    assert(first@ == gl[s.line as int]);
    if s.line == e.line {
        let a = char_index(first.as_slice(), s.character);
        let b = char_index(first.as_slice(), e.character);
        match (a, b) {
            (Some(i), Some(j)) => {
                if s.character > e.character {
                    return true;
                }
                let bi = crate::positions::prefix_bytes(first.as_slice(), i);
                let bj = crate::positions::prefix_bytes(first.as_slice(), j);
                proof {
                    lemma_boundary_at(first@, i as int, s.character as int);
                    lemma_boundary_at(first@, j as int, e.character as int);
                }
                match (bi, bj) {
                    (Some(x), Some(y)) => x == s.character as usize && y == e.character as usize,
                    _ => false,
                }
            },
            _ => true,
        }
    } else {
        if s.line == u32::MAX {
            return false;
        }
        let first_ok = match char_index(first.as_slice(), s.character) {
            Some(i) => {
                let bi = crate::positions::prefix_bytes(first.as_slice(), i);
                proof {
                    lemma_boundary_at(first@, i as int, s.character as int);
                }
                match bi {
                    Some(x) => x == s.character as usize,
                    None => false,
                }
            },
            None => false,
        };
        if !first_ok {
            return false;
        }
        if !(e.line as usize <= ls.len() || e.line <= s.line + 1) {
            return false;
        }
        if (e.line as usize) < ls.len() {
            let last = &ls[e.line as usize];
            assert(last@ == gl[e.line as int]);
            match char_index(last.as_slice(), e.character) {
                Some(i) => {
                    let bi = crate::positions::prefix_bytes(last.as_slice(), i);
                    proof {
                        lemma_boundary_at(last@, i as int, e.character as int);
                    }
                    match bi {
                        Some(x) => x == e.character as usize,
                        None => false,
                    }
                },
                None => false,
            }
        } else {
            true
        }
    }
}

/// `b` is a boundary exactly when the first `k` characters, the first ones to
/// reach `b` bytes, take exactly `b` bytes.
proof fn lemma_boundary_at(line: Seq<char>, k: int, b: int)
    requires
        0 <= k <= line.len(),
        byte_len(line.take(k)) >= b,
        k > 0 ==> byte_len(line.take(k - 1)) < b,
        0 <= b,
    ensures
        is_byte_boundary(line, b) <==> byte_len(line.take(k)) == b,
{
    if is_byte_boundary(line, b) {
        let j = choose|j: int| 0 <= j <= line.len() && byte_len(#[trigger] line.take(j)) == b;
        if j < k {
            crate::text::lemma_byte_len_take_monotone(line, j, k - 1);
        } else if j > k {
            crate::text::lemma_byte_len_take_monotone(line, k, j);
        }
    }
    if byte_len(line.take(k)) == b {
        assert(is_byte_boundary(line, b));
    }
}

/// The text of a range of a document (see `range_text`).
pub fn extract_text_from_range(document_content: &str, range: Range) -> (r: Result<
    String,
    RenameError,
>)
    requires
        range_sliceable(document_content@, range),
    ensures
        match range_text(document_content@, range) {
            Some(t) => r matches Ok(x) && x@ == t,
            None => r is Err,
        },
{
    let text = chars_of(document_content);
    let ls = lines(text.as_slice());
    let ghost gl = lines_of(document_content@);
    let s = range.start;
    let e = range.end;
    if s.line as usize >= ls.len() {
        return Err(RenameError::StartLineOutOfRange);
    }
    let first = &ls[s.line as usize];
    assert(first@ == gl[s.line as int]);
    if s.line == e.line {
        let a = char_index(first.as_slice(), s.character);
        let b = char_index(first.as_slice(), e.character);
        match (a, b) {
            (Some(i), Some(j)) => {
                if s.character > e.character {
                    return Err(RenameError::InvalidCharacterRange);
                }
                proof {
                    crate::text::lemma_chars_in_bytes_unique(first@, i as int);
                    crate::text::lemma_chars_in_bytes_unique(first@, j as int);
                    if i > j {
                        crate::text::lemma_byte_len_take_monotone(first@, j as int, i as int);
                    }
                }
                let mut out: Vec<char> = Vec::new();
                push_range(&mut out, first.as_slice(), i, j);
                assert(out@ =~= first@.subrange(i as int, j as int));
                Ok(string_from_chars(out.as_slice()))
            },
            _ => Err(RenameError::InvalidCharacterRange),
        }
    } else {
        let mut out: Vec<char> = Vec::new();
        let i = match char_index(first.as_slice(), s.character) {
            Some(i) => i,
            None => {
                return Err(RenameError::InvalidCharacterRange);
            },
        };
        push_range(&mut out, first.as_slice(), i, first.len());
        assert(out@ =~= first@.skip(chars_in_bytes(first@, s.character as int)));
        let ghost head = out@;
        let mut k: u32 = s.line + 1;
        if k < e.line {
            while k < e.line
                invariant
                    s.line + 1 <= k <= e.line,
                    (e.line <= gl.len() || e.line <= s.line + 1),
                    ls@.len() == gl.len(),
                    forall|j: int| 0 <= j < ls@.len() ==> (#[trigger] ls@[j])@ == gl[j],
                    out@ == head + middle_lines(gl, s.line + 1, k as int),
                decreases e.line - k,
            {
                let line = &ls[k as usize];
                out.push('\n');
                let ghost before = out@;
                push_range(&mut out, line.as_slice(), 0, line.len());
                assert(line@.subrange(0, line@.len() as int) =~= line@);
                k = k + 1;
                assert(out@ =~= head + middle_lines(gl, s.line + 1, k as int));
            }
        } else {
            assert(middle_lines(gl, s.line + 1, e.line as int) =~= Seq::<char>::empty());
        }
        let ghost mid = out@;
        if (e.line as usize) < ls.len() {
            let last = &ls[e.line as usize];
            assert(last@ == gl[e.line as int]);
            out.push('\n');
            let j = match char_index(last.as_slice(), e.character) {
                Some(j) => j,
                None => {
                    return Err(RenameError::InvalidCharacterRange);
                },
            };
            push_range(&mut out, last.as_slice(), 0, j);
            assert(out@ =~= mid + (seq!['\n'] + last@.take(j as int)));
        } else {
            assert(out@ =~= mid + Seq::<char>::empty());
        }
        Ok(string_from_chars(out.as_slice()))
    }
}

/// The range offered for renaming: that of the first location in the
/// document that holds the position, else that of the first location.
pub open spec fn rename_range_of(locations: Seq<Location>, uri: Seq<char>, position: Position) -> Option<
    Range,
> {
    if locations.len() == 0 {
        None
    } else if exists|i: int|
        0 <= i < locations.len() && #[trigger] holds_position(locations[i], uri, position) {
        let i = choose|i: int|
            0 <= i < locations.len() && #[trigger] holds_position(locations[i], uri, position) && forall|
                j: int,
            | 0 <= j < i ==> !holds_position(locations[j], uri, position);
        Some(locations[i].range)
    } else {
        Some(locations[0].range)
    }
}

/// The location is in document `uri` and its range holds the position.
pub open spec fn holds_position(l: Location, uri: Seq<char>, position: Position) -> bool {
    l.uri@ == uri && position_le(l.range.start, position) && position_le(position, l.range.end)
}

/// The range offered for a rename is that of the first reference in the
/// current document whose range holds the cursor (its start at or before
/// the cursor, its end at or after); when none holds it, that of the first
/// reference; with no references, none.
pub proof fn law_rename_range_under_cursor(locations: Seq<Location>, uri: Seq<char>, position: Position, i: int)
    ensures
        locations.len() == 0 ==> rename_range_of(locations, uri, position) is None,
        0 <= i < locations.len() && locations[i].uri@ == uri && position_le(locations[i].range.start, position)
            && position_le(position, locations[i].range.end) && (forall|j: int|
            0 <= j < i ==> !((#[trigger] locations[j]).uri@ == uri && position_le(locations[j].range.start, position)
                && position_le(position, locations[j].range.end))) ==> rename_range_of(locations, uri, position)
            == Some(locations[i].range),
        locations.len() > 0 && (forall|j: int|
            0 <= j < locations.len() ==> !((#[trigger] locations[j]).uri@ == uri && position_le(
                locations[j].range.start,
                position,
            ) && position_le(position, locations[j].range.end))) ==> rename_range_of(locations, uri, position)
            == Some(locations[0].range),
{
    if 0 <= i < locations.len() && holds_position(locations[i], uri, position) && (forall|j: int|
        0 <= j < i ==> !holds_position(#[trigger] locations[j], uri, position)) {
        let c = choose|c: int|
            0 <= c < locations.len() && #[trigger] holds_position(locations[c], uri, position) && forall|j: int|
                0 <= j < c ==> !holds_position(locations[j], uri, position);
        assert(holds_position(locations[i], uri, position));
        if c < i {
            assert(!holds_position(locations[c], uri, position));
        }
        if c > i {
            assert(!holds_position(locations[i], uri, position));
        }
    }
    if locations.len() > 0 && (forall|j: int| 0 <= j < locations.len() ==> !holds_position(#[trigger] locations[j], uri, position)) {
        assert(!(exists|j: int| 0 <= j < locations.len() && #[trigger] holds_position(locations[j], uri, position)));
    }
}

/// The range offered for renaming (see `rename_range_of`).
pub fn prepare_rename_range(locations: &Vec<Location>, uri: &str, position: Position) -> (r: Option<
    Range,
>)
    ensures
        r == rename_range_of(locations@, uri@, position),
{
    if locations.len() == 0 {
        return None;
    }
    let mut i: usize = 0;
    while i < locations.len()
        invariant
            0 <= i <= locations@.len(),
            forall|j: int| 0 <= j < i ==> !holds_position(locations@[j], uri@, position),
        decreases locations.len() - i,
    {
        let l = &locations[i];
        if str_equal(l.uri.as_str(), uri) && crate::protocol::position_before_or_at(
            l.range.start,
            position,
        ) && crate::protocol::position_before_or_at(position, l.range.end) {
            assert(holds_position(locations@[i as int], uri@, position));
            proof {
                let c = choose|c: int|
                    0 <= c < locations@.len() && #[trigger] holds_position(
                        locations@[c],
                        uri@,
                        position,
                    ) && forall|j: int| 0 <= j < c ==> !holds_position(locations@[j], uri@, position);
                if c < i {
                } else if c > i {
                    assert(!holds_position(locations@[i as int], uri@, position));
                }
            }
            return Some(l.range);
        }
        i = i + 1;
    }
    Some(locations[0].range)
}

/// A symbol of the new name already exists in the document.
pub open spec fn has_conflict(existing: Seq<Symbol>, uri: Seq<char>) -> bool {
    exists|i: int| 0 <= i < existing.len() && (#[trigger] existing[i]).uri@ == uri
}

/// Refuses a rename when a symbol of the new name exists in the same document.
pub fn validate_no_conflicts(existing_symbols: &Vec<Symbol>, uri: &str) -> (r: Result<(), RenameError>)
    ensures
        has_conflict(existing_symbols@, uri@) <==> r == Err::<(), RenameError>(
            RenameError::NameConflict,
        ),
        !has_conflict(existing_symbols@, uri@) <==> r is Ok,
{
    let mut i: usize = 0;
    while i < existing_symbols.len()
        invariant
            0 <= i <= existing_symbols@.len(),
            forall|j: int| 0 <= j < i ==> (#[trigger] existing_symbols@[j]).uri@ != uri@,
        decreases existing_symbols.len() - i,
    {
        if str_equal(existing_symbols[i].uri.as_str(), uri) {
            assert(existing_symbols@[i as int].uri@ == uri@);
            return Err(RenameError::NameConflict);
        }
        i = i + 1;
    }
    Ok(())
}

/// The edits of one document.
#[derive(Debug, Clone)]
pub struct FileEdits {
    pub uri: String,
    pub edits: Vec<TextEdit>,
}

/// Edits to several documents, each document once.
#[derive(Debug, Clone)]
pub struct WorkspaceEdit {
    pub changes: Option<Vec<FileEdits>>,
}

/// `a` starts after `b`: edits are applied from the end of a document.
pub open spec fn starts_after(a: Range, b: Range) -> bool {
    a.start.line > b.start.line || (a.start.line == b.start.line && a.start.character
        > b.start.character)
}

impl Ranked for TextEdit {
    open spec fn precedes(&self, other: &Self) -> bool {
        starts_after(self.range, other.range)
    }

    fn goes_before(&self, other: &Self) -> (r: bool) {
        self.range.start.line > other.range.start.line || (self.range.start.line
            == other.range.start.line && self.range.start.character > other.range.start.character)
    }
}

/// `x` inserted after every range that does not start before it, scanning
/// from the back.
pub open spec fn insert_desc(s: Seq<Range>, x: Range) -> Seq<Range>
    decreases s.len(),
{
    if s.len() == 0 {
        seq![x]
    } else if starts_after(x, s.last()) {
        insert_desc(s.drop_last(), x).push(s.last())
    } else {
        s.push(x)
    }
}

/// Ranges ordered from the last start to the first, stably.
pub open spec fn sorted_desc(s: Seq<Range>) -> Seq<Range>
    decreases s.len(),
{
    if s.len() == 0 {
        s
    } else {
        insert_desc(sorted_desc(s.drop_last()), s.last())
    }
}

pub open spec fn edit_ranges(v: Seq<TextEdit>) -> Seq<Range> {
    v.map_values(|e: TextEdit| e.range)
}

proof fn lemma_insert_desc(s: Seq<TextEdit>, x: TextEdit)
    ensures
        edit_ranges(insert_ranked(s, x)) == insert_desc(edit_ranges(s), x.range),
    decreases s.len(),
{
    if s.len() == 0 {
        assert(edit_ranges(seq![x]) =~= seq![x.range]);
    } else {
        assert(edit_ranges(s).drop_last() =~= edit_ranges(s.drop_last()));
        if x.precedes(&s.last()) {
            lemma_insert_desc(s.drop_last(), x);
            assert(edit_ranges(insert_ranked(s.drop_last(), x).push(s.last())) =~= edit_ranges(
                insert_ranked(s.drop_last(), x),
            ).push(s.last().range));
        } else {
            assert(edit_ranges(s.push(x)) =~= edit_ranges(s).push(x.range));
        }
    }
}

proof fn lemma_sorted_desc(v: Seq<TextEdit>)
    ensures
        edit_ranges(stable_sorted(v)) == sorted_desc(edit_ranges(v)),
    decreases v.len(),
{
    if v.len() > 0 {
        lemma_sorted_desc(v.drop_last());
        lemma_insert_desc(stable_sorted(v.drop_last()), v.last());
        assert(edit_ranges(v).drop_last() =~= edit_ranges(v.drop_last()));
    } else {
        assert(edit_ranges(v) =~= Seq::<Range>::empty());
    }
}

proof fn lemma_sorted_texts_kept(v: Seq<TextEdit>, t: Seq<char>)
    requires
        forall|i: int| 0 <= i < v.len() ==> (#[trigger] v[i]).new_text@ == t,
    ensures
        forall|i: int| 0 <= i < stable_sorted(v).len() ==> (#[trigger] stable_sorted(v)[i]).new_text@ == t,
        stable_sorted(v).len() == v.len(),
    decreases v.len(),
{
    if v.len() > 0 {
        assert forall|i: int| 0 <= i < v.drop_last().len() implies (#[trigger] v.drop_last()[i]).new_text@ == t by {
            assert(v.drop_last()[i] == v[i]);
        }
        lemma_sorted_texts_kept(v.drop_last(), t);
        lemma_insert_texts_kept(stable_sorted(v.drop_last()), v.last(), t);
    }
}

proof fn lemma_insert_texts_kept(s: Seq<TextEdit>, x: TextEdit, t: Seq<char>)
    requires
        x.new_text@ == t,
        forall|i: int| 0 <= i < s.len() ==> (#[trigger] s[i]).new_text@ == t,
    ensures
        forall|i: int| 0 <= i < insert_ranked(s, x).len() ==> (#[trigger] insert_ranked(s, x)[i]).new_text@ == t,
        insert_ranked(s, x).len() == s.len() + 1,
    decreases s.len(),
{
    if s.len() > 0 && x.precedes(&s.last()) {
        assert forall|i: int| 0 <= i < s.drop_last().len() implies (#[trigger] s.drop_last()[i]).new_text@ == t by {
            assert(s.drop_last()[i] == s[i]);
        }
        lemma_insert_texts_kept(s.drop_last(), x, t);
        let u = insert_ranked(s.drop_last(), x);
        assert forall|i: int| 0 <= i < u.push(s.last()).len() implies (#[trigger] u.push(s.last())[i]).new_text@ == t by {
            if i < u.len() {
                assert(u.push(s.last())[i] == u[i]);
            }
        }
    } else if s.len() > 0 {
        assert forall|i: int| 0 <= i < s.push(x).len() implies (#[trigger] s.push(x)[i]).new_text@ == t by {
            if i < s.len() {
                assert(s.push(x)[i] == s[i]);
            }
        }
    }
}

/// The document of `uri` among the open documents (the first one listed).
pub open spec fn document_of(docs: Seq<(String, String)>, uri: Seq<char>) -> Option<Seq<char>>
    decreases docs.len(),
{
    if docs.len() == 0 {
        None
    } else if docs[0].0@ == uri {
        Some(docs[0].1@)
    } else {
        document_of(docs.drop_first(), uri)
    }
}

fn find_document<'a>(docs: &'a Vec<(String, String)>, uri: &str) -> (r: Option<&'a String>)
    ensures
        match document_of(docs@, uri@) {
            Some(c) => r matches Some(s) && s@ == c,
            None => r is None,
        },
{
    let mut i: usize = 0;
    assert(docs@.skip(0) =~= docs@);
    while i < docs.len()
        invariant
            0 <= i <= docs@.len(),
            document_of(docs@, uri@) == document_of(docs@.skip(i as int), uri@),
        decreases docs.len() - i,
    {
        assert(docs@.skip(i as int).drop_first() =~= docs@.skip(i + 1));
        if str_equal(docs[i].0.as_str(), uri) {
            return Some(&docs[i].1);
        }
        i = i + 1;
    }
    None
}

/// The groups of edit ranges, one per document in order of first appearance.
pub open spec fn edit_groups(locations: Seq<Location>) -> Seq<(Seq<char>, Seq<Range>)>
    decreases locations.len(),
{
    if locations.len() == 0 {
        Seq::empty()
    } else {
        let g = edit_groups(locations.drop_last());
        let l = locations.last();
        let j = group_index(g, l.uri@);
        if j >= 0 {
            g.update(j, (l.uri@, g[j].1.push(l.range)))
        } else {
            g.push((l.uri@, seq![l.range]))
        }
    }
}

/// Where the group of `uri` is, or -1.
pub open spec fn group_index(g: Seq<(Seq<char>, Seq<Range>)>, uri: Seq<char>) -> int
    decreases g.len(),
{
    if g.len() == 0 {
        -1
    } else if g.last().0 == uri {
        g.len() - 1
    } else {
        group_index(g.drop_last(), uri)
    }
}

proof fn lemma_group_index(g: Seq<(Seq<char>, Seq<Range>)>, uri: Seq<char>)
    ensures
        -1 <= group_index(g, uri) < g.len(),
        group_index(g, uri) >= 0 ==> g[group_index(g, uri)].0 == uri,
    decreases g.len(),
{
    if g.len() > 0 {
        lemma_group_index(g.drop_last(), uri);
    }
}

fn find_group(groups: &Vec<FileEdits>, uri: &str) -> (r: Option<usize>)
    ensures
        r matches Some(x) ==> x == group_index(groups@.map_values(|f: FileEdits| file_edits_model(f)), uri@),
        r is None ==> group_index(groups@.map_values(|f: FileEdits| file_edits_model(f)), uri@) == -1,
{
    let ghost g = groups@.map_values(|f: FileEdits| file_edits_model(f));
    let mut j: usize = groups.len();
    assert(g.take(g.len() as int) =~= g);
    while j > 0
        invariant
            0 <= j <= groups@.len(),
            g == groups@.map_values(|f: FileEdits| file_edits_model(f)),
            group_index(g, uri@) == group_index(g.take(j as int), uri@),
        decreases j,
    {
        assert(g.take(j as int).drop_last() =~= g.take(j - 1));
        if str_equal(groups[j - 1].uri.as_str(), uri) {
            return Some(j - 1);
        }
        j = j - 1;
    }
    None
}

/// Every location in an open document can be sliced there.
pub open spec fn locations_sliceable(locations: Seq<Location>, docs: Seq<(String, String)>) -> bool {
    forall|i: int|
        0 <= i < locations.len() ==> match document_of(docs, (#[trigger] locations[i]).uri@) {
            Some(c) => range_sliceable(c, locations[i].range),
            None => true,
        }
}

/// Some location in an open document has no text there.
pub open spec fn some_location_unreadable(locations: Seq<Location>, docs: Seq<(String, String)>) -> bool {
    exists|i: int|
        0 <= i < locations.len() && match document_of(docs, (#[trigger] locations[i]).uri@) {
            Some(c) => range_text(c, locations[i].range) is None,
            None => false,
        }
}

/// The edits of a file by their URI and ranges.
pub open spec fn file_edits_model(f: FileEdits) -> (Seq<char>, Seq<Range>) {
    (f.uri@, edit_ranges(f.edits@))
}

/// Whether `w` renames every location to `new_name`: one group of edits per
/// document, in order of first appearance, each group ordered from the end of
/// the document.
pub open spec fn renames_all(w: WorkspaceEdit, references: Seq<Location>, new_name: Seq<char>) -> bool {
    w.changes matches Some(groups) && groups@.len() == edit_groups(references).len() && forall|i: int|
        0 <= i < groups@.len() ==> {
            &&& (#[trigger] groups@[i]).uri@ == edit_groups(references)[i].0
            &&& edit_ranges(groups@[i].edits@) == sorted_desc(edit_groups(references)[i].1)
            &&& forall|k: int|
                0 <= k < groups@[i].edits@.len() ==> (#[trigger] groups@[i].edits@[k]).new_text@
                    == new_name
        }
}

/// The edits that rename every location to `new_name` (see `renames_all`).
/// Fails when a location in an open document has no text.
pub fn generate_workspace_edit(
    references: &Vec<Location>,
    old_name: &str,
    new_name: &str,
    workspace_documents: &Vec<(String, String)>,
) -> (r: Result<WorkspaceEdit, RenameError>)
    requires
        locations_sliceable(references@, workspace_documents@),
    ensures
        some_location_unreadable(references@, workspace_documents@) <==> r is Err,
        r matches Ok(w) ==> renames_all(w, references@, new_name@),
{
    let mut i: usize = 0;
    while i < references.len()
        invariant
            0 <= i <= references@.len(),
            locations_sliceable(references@, workspace_documents@),
            forall|j: int|
                0 <= j < i ==> match document_of(workspace_documents@, (#[trigger] references@[j]).uri@) {
                    Some(c) => range_text(c, references@[j].range) is Some,
                    None => true,
                },
        decreases references.len() - i,
    {
        let l = &references[i];
        match find_document(workspace_documents, l.uri.as_str()) {
            Some(content) => {
                assert(range_sliceable(content@, l.range));
                match extract_text_from_range(content.as_str(), l.range) {
                    Ok(_) => {},
                    Err(e) => {
                        return Err(e);
                    },
                }
            },
            None => {},
        }
        i = i + 1;
    }
    let mut groups: Vec<FileEdits> = Vec::new();
    let mut k: usize = 0;
    assert(references@.take(0) =~= Seq::<Location>::empty());
    while k < references.len()
        invariant
            0 <= k <= references@.len(),
            groups@.map_values(|f: FileEdits| file_edits_model(f)) == edit_groups(
                references@.take(k as int),
            ),
            forall|a: int, b: int|
                0 <= a < groups@.len() && 0 <= b < groups@[a].edits@.len() ==> (#[trigger] groups@[a].edits@[b]).new_text@
                    == new_name@,
        decreases references.len() - k,
    {
        let l = &references[k];
        let ghost g = edit_groups(references@.take(k as int));
        assert(references@.take(k + 1).drop_last() =~= references@.take(k as int));
        proof {
            lemma_group_index(g, l.uri@);
        }
        let found = find_group(&groups, l.uri.as_str());
        let edit = TextEdit { range: l.range, new_text: new_name.to_owned() };
        let ghost before = groups@;
        match found {
            Some(x) => {
                assert(x == group_index(g, l.uri@));
                let mut entry = groups.remove(x);
                let ghost old_edits = entry.edits@;
                entry.edits.push(edit);
                assert(edit_ranges(entry.edits@) =~= edit_ranges(old_edits).push(l.range));
                groups.insert(x, entry);
                assert(groups@.map_values(|f: FileEdits| file_edits_model(f)) =~= g.update(
                    x as int,
                    (l.uri@, g[x as int].1.push(l.range)),
                ));
                assert forall|a: int, b: int|
                    0 <= a < groups@.len() && 0 <= b < groups@[a].edits@.len() implies (#[trigger] groups@[a].edits@[b]).new_text@
                        == new_name@ by {
                    if a != x {
                        assert(groups@[a] == before[a]);
                    }
                }
            },
            None => {
                assert(group_index(g, l.uri@) == -1);
                let mut edits: Vec<TextEdit> = Vec::new();
                edits.push(edit);
                groups.push(FileEdits { uri: l.uri.clone(), edits });
                assert(edit_ranges(groups@.last().edits@) =~= seq![l.range]);
                assert(groups@.map_values(|f: FileEdits| file_edits_model(f)) =~= g.push(
                    (l.uri@, seq![l.range]),
                ));
                assert forall|a: int, b: int|
                    0 <= a < groups@.len() && 0 <= b < groups@[a].edits@.len() implies (#[trigger] groups@[a].edits@[b]).new_text@
                        == new_name@ by {
                    if a < before.len() {
                        assert(groups@[a] == before[a]);
                    }
                }
            },
        }
        k = k + 1;
    }
    assert(references@.take(references@.len() as int) =~= references@);
    let ghost eg = edit_groups(references@);
    let mut sorted_groups: Vec<FileEdits> = Vec::new();
    let mut rest = groups;
    let ghost all = rest@;
    let total = rest.len();
    let mut m: usize = 0;
    while m < total
        invariant
            0 <= m <= total,
            total == all.len(),
            rest@ == all.skip(m as int),
            all.map_values(|f: FileEdits| file_edits_model(f)) == eg,
            forall|a: int, b: int|
                0 <= a < all.len() && 0 <= b < all[a].edits@.len() ==> (#[trigger] all[a].edits@[b]).new_text@
                    == new_name@,
            sorted_groups@.len() == m,
            forall|i: int|
                0 <= i < m ==> {
                    &&& (#[trigger] sorted_groups@[i]).uri@ == eg[i].0
                    &&& edit_ranges(sorted_groups@[i].edits@) == sorted_desc(eg[i].1)
                    &&& forall|k: int|
                        0 <= k < sorted_groups@[i].edits@.len() ==> (#[trigger] sorted_groups@[i].edits@[k]).new_text@
                            == new_name@
                },
        decreases total - m,
    {
        let f = rest.remove(0);
        assert(f == all[m as int]);
        assert(rest@ =~= all.skip(m + 1));
        let ghost v = f.edits@;
        assert(file_edits_model(f) == eg[m as int]);
        assert forall|b: int| 0 <= b < v.len() implies (#[trigger] v[b]).new_text@ == new_name@ by {
            assert(all[m as int].edits@[b] == v[b]);
        }
        let sorted = stable_sort(f.edits);
        proof {
            lemma_sorted_desc(v);
            lemma_sorted_texts_kept(v, new_name@);
        }
        let ghost before = sorted_groups@;
        sorted_groups.push(FileEdits { uri: f.uri, edits: sorted });
        assert forall|i: int| 0 <= i < m + 1 implies {
            &&& (#[trigger] sorted_groups@[i]).uri@ == eg[i].0
            &&& edit_ranges(sorted_groups@[i].edits@) == sorted_desc(eg[i].1)
            &&& forall|k: int|
                0 <= k < sorted_groups@[i].edits@.len() ==> (#[trigger] sorted_groups@[i].edits@[k]).new_text@
                    == new_name@
        } by {
            if i < m {
                assert(sorted_groups@[i] == before[i]);
            }
        }
        m = m + 1;
    }
    proof {
        if some_location_unreadable(references@, workspace_documents@) {
            let x = choose|x: int|
                0 <= x < references@.len() && match document_of(
                    workspace_documents@,
                    (#[trigger] references@[x]).uri@,
                ) {
                    Some(c) => range_text(c, references@[x].range) is None,
                    None => false,
                };
            assert(match document_of(workspace_documents@, references@[x].uri@) {
                Some(c) => range_text(c, references@[x].range) is Some,
                None => true,
            });
        }
    }
    Ok(WorkspaceEdit { changes: Some(sorted_groups) })
}

/// Answers a prepare-rename request from the references found at the
/// cursor (`None` when none were): the range of `rename_range_of`, once its
/// text could be read from the document.
pub fn handle_prepare_rename(
    references: Option<Vec<Location>>,
    uri: &str,
    position: Position,
    document_content: &str,
) -> (r: Result<Option<Range>, RenameError>)
    requires
        references matches Some(v) ==> (rename_range_of(v@, uri@, position) matches Some(range)
            ==> range_sliceable(document_content@, range)),
    ensures
        match references {
            None => r matches Ok(None),
            Some(v) => match rename_range_of(v@, uri@, position) {
                None => r matches Ok(None),
                Some(range) => if range_text(document_content@, range) is Some {
                    r == Ok::<Option<Range>, RenameError>(Some(range))
                } else {
                    r is Err
                },
            },
        },
{
    let refs = match references {
        Some(v) => v,
        None => return Ok(None),
    };
    let range = match prepare_rename_range(&refs, uri, position) {
        Some(r) => r,
        None => return Ok(None),
    };
    match extract_text_from_range(document_content, range) {
        Ok(_) => Ok(Some(range)),
        Err(e) => Err(e),
    }
}

/// The rename's edits, before the compilation check: a new name that is no
/// valid name is refused; without references (`None` or none found) there is
/// nothing to do; the old name is read at the first reference (its document
/// must be open), a new name that breaks the naming convention of the
/// symbol's kind is refused, a symbol of the new name in that document (`existing`,
/// the symbols of that name) refuses the rename, and the edits are those of
/// `generate_workspace_edit`.
pub fn handle_rename(
    new_name: &str,
    references: Option<Vec<Location>>,
    workspace_documents: &Vec<(String, String)>,
    existing: &Vec<Symbol>,
) -> (r: Result<Option<WorkspaceEdit>, RenameError>)
    requires
        references matches Some(v) ==> locations_sliceable(v@, workspace_documents@) && (v@.len() > 0
            ==> (document_of(workspace_documents@, v@[0].uri@) matches Some(c) ==> range_sliceable(
            c,
            v@[0].range,
        ))),
    ensures
        crate::naming::name_verdict(new_name@) is Some ==> r == Err::<Option<WorkspaceEdit>, RenameError>(
            RenameError::InvalidName,
        ),
        crate::naming::name_verdict(new_name@) is None ==> match references {
            None => r matches Ok(None),
            Some(v) => if v@.len() == 0 {
                r matches Ok(None)
            } else {
                match document_of(workspace_documents@, v@[0].uri@) {
                    None => r == Err::<Option<WorkspaceEdit>, RenameError>(RenameError::DocumentNotFound),
                    Some(c) => match range_text(c, v@[0].range) {
                        None => r is Err,
                        Some(old) => if crate::naming::convention_verdict(old, new_name@) == Some(
                            crate::naming::NameError::InvalidValueName,
                        ) {
                            r == Err::<Option<WorkspaceEdit>, RenameError>(RenameError::ValueNameExpected)
                        } else if crate::naming::convention_verdict(old, new_name@) is Some {
                            r == Err::<Option<WorkspaceEdit>, RenameError>(RenameError::TypeNameExpected)
                        } else if has_conflict(existing@, v@[0].uri@) {
                            r == Err::<Option<WorkspaceEdit>, RenameError>(RenameError::NameConflict)
                        } else {
                            (some_location_unreadable(v@, workspace_documents@) ==> r is Err) && (
                            !some_location_unreadable(v@, workspace_documents@) ==> (r matches Ok(Some(w))
                                && renames_all(w, v@, new_name@)))
                        },
                    },
                }
            },
        },
{
    if crate::naming::validate_new_name(new_name).is_err() {
        return Err(RenameError::InvalidName);
    }
    let refs = match references {
        Some(v) => v,
        None => return Ok(None),
    };
    if refs.len() == 0 {
        return Ok(None);
    }
    let first = &refs[0];
    let content = match find_document(workspace_documents, first.uri.as_str()) {
        Some(c) => c,
        None => return Err(RenameError::DocumentNotFound),
    };
    let old_name = extract_text_from_range(content.as_str(), first.range)?;
    match crate::naming::check_naming_convention(old_name.as_str(), new_name) {
        Ok(()) => {},
        Err(crate::naming::NameError::InvalidValueName) => return Err(RenameError::ValueNameExpected),
        Err(_) => return Err(RenameError::TypeNameExpected),
    }
    validate_no_conflicts(existing, first.uri.as_str())?;
    let edit = generate_workspace_edit(&refs, old_name.as_str(), new_name, workspace_documents)?;
    Ok(Some(edit))
}

/// A range that does not end before it starts.
pub open spec fn range_well_formed(r: Range) -> bool {
    position_le(r.start, r.end)
}

/// Two ranges that do not overlap: one ends where or before the other starts.
pub open spec fn ranges_apart(a: Range, b: Range) -> bool {
    position_le(a.end, b.start) || position_le(b.end, a.start)
}

/// Any two ranges at different places of `s` are apart.
pub open spec fn pairwise_apart(s: Seq<Range>) -> bool {
    forall|i: int, j: int| 0 <= i < j < s.len() ==> ranges_apart(#[trigger] s[i], #[trigger] s[j])
}

/// No range starts after one that comes earlier.
pub open spec fn descending_starts(s: Seq<Range>) -> bool {
    forall|i: int, j: int| 0 <= i < j < s.len() ==> !starts_after(#[trigger] s[j], #[trigger] s[i])
}

/// Where `insert_desc` puts `x`: `s` up to that place, `x`, and the rest of `s`.
proof fn lemma_insert_desc_place(s: Seq<Range>, x: Range) -> (p: int)
    ensures
        0 <= p <= s.len(),
        insert_desc(s, x) == s.take(p).push(x) + s.skip(p),
        forall|k: int| p <= k < s.len() ==> starts_after(x, #[trigger] s[k]),
        p > 0 ==> !starts_after(x, s[p - 1]),
    decreases s.len(),
{
    if s.len() == 0 {
        assert(s.take(0).push(x) + s.skip(0) =~= seq![x]);
        0
    } else if starts_after(x, s.last()) {
        let t = s.drop_last();
        let p = lemma_insert_desc_place(t, x);
        assert(t.take(p) =~= s.take(p));
        assert(t.skip(p).push(s.last()) =~= s.skip(p));
        assert(insert_desc(s, x) =~= s.take(p).push(x) + s.skip(p));
        assert forall|k: int| p <= k < s.len() implies starts_after(x, #[trigger] s[k]) by {
            if k < t.len() {
                assert(s[k] == t[k]);
            }
        }
        if p > 0 {
            assert(s[p - 1] == t[p - 1]);
        }
        p
    } else {
        let p = s.len() as int;
        assert(s.take(p) =~= s);
        assert(s.skip(p) =~= Seq::<Range>::empty());
        assert(insert_desc(s, x) =~= s.take(p).push(x) + s.skip(p));
        p
    }
}

/// Every range of `sorted_desc(s)` is a range of `s`, and the order is
/// descending by start; ranges that were pairwise apart stay so.
proof fn lemma_sorted_desc_order(s: Seq<Range>)
    ensures
        sorted_desc(s).len() == s.len(),
        forall|k: int| 0 <= k < sorted_desc(s).len() ==> exists|i: int| 0 <= i < s.len() && #[trigger] sorted_desc(s)[k] == s[i],
        descending_starts(sorted_desc(s)),
        pairwise_apart(s) ==> pairwise_apart(sorted_desc(s)),
    decreases s.len(),
{
    if s.len() > 0 {
        let t = s.drop_last();
        let x = s.last();
        lemma_sorted_desc_order(t);
        let u = sorted_desc(t);
        let p = lemma_insert_desc_place(u, x);
        let r = sorted_desc(s);
        assert(r == u.take(p).push(x) + u.skip(p));
        assert forall|k: int| 0 <= k < r.len() implies exists|i: int| 0 <= i < s.len() && #[trigger] r[k] == s[i] by {
            if k < p {
                assert(r[k] == u[k]);
                let i = choose|i: int| 0 <= i < t.len() && u[k] == t[i];
                assert(s[i] == t[i]);
            } else if k == p {
                assert(r[k] == s[s.len() - 1]);
            } else {
                assert(r[k] == u[k - 1]);
                let i = choose|i: int| 0 <= i < t.len() && u[k - 1] == t[i];
                assert(s[i] == t[i]);
            }
        }
        assert forall|i: int, j: int| 0 <= i < j < r.len() implies !starts_after(#[trigger] r[j], #[trigger] r[i]) by {
            if j < p {
                assert(r[i] == u[i] && r[j] == u[j]);
            } else if j == p {
                assert(r[i] == u[i]);
                assert(!starts_after(x, u[p - 1]));
                if i < p - 1 {
                    assert(!starts_after(u[p - 1], u[i]));
                }
            } else if i == p {
                assert(r[j] == u[j - 1]);
                assert(starts_after(x, u[j - 1]));
            } else if i < p {
                assert(r[i] == u[i] && r[j] == u[j - 1]);
            } else {
                assert(r[i] == u[i - 1] && r[j] == u[j - 1]);
            }
        }
        if pairwise_apart(s) {
            assert(pairwise_apart(t)) by {
                assert forall|i: int, j: int| 0 <= i < j < t.len() implies ranges_apart(#[trigger] t[i], #[trigger] t[j]) by {
                    assert(t[i] == s[i] && t[j] == s[j]);
                }
            }
            assert forall|k: int| 0 <= k < u.len() implies ranges_apart(#[trigger] u[k], x) by {
                let i = choose|i: int| 0 <= i < t.len() && u[k] == t[i];
                assert(s[i] == t[i]);
                assert(ranges_apart(s[i], s[s.len() - 1]));
            }
            assert forall|i: int, j: int| 0 <= i < j < r.len() implies ranges_apart(#[trigger] r[i], #[trigger] r[j]) by {
                if j < p {
                    assert(r[i] == u[i] && r[j] == u[j]);
                } else if j == p {
                    assert(r[i] == u[i]);
                    assert(ranges_apart(u[i], x));
                } else if i == p {
                    assert(r[j] == u[j - 1]);
                    assert(ranges_apart(u[j - 1], x));
                } else if i < p {
                    assert(r[i] == u[i] && r[j] == u[j - 1]);
                } else {
                    assert(r[i] == u[i - 1] && r[j] == u[j - 1]);
                }
            }
        }
    }
}

/// Some reference to `uri` has the range `range`.
pub open spec fn referenced(references: Seq<Location>, uri: Seq<char>, range: Range) -> bool {
    exists|i: int| 0 <= i < references.len() && (#[trigger] references[i]).uri@ == uri && references[i].range == range
}

/// The ranges of a group come from references to its document; ranges of
/// references to one document that are apart stay apart in the group.
proof fn lemma_edit_groups(references: Seq<Location>)
    ensures
        forall|j: int, k: int|
            #![trigger edit_groups(references)[j].1[k]]
            0 <= j < edit_groups(references).len() && 0 <= k < edit_groups(references)[j].1.len()
                ==> referenced(references, edit_groups(references)[j].0, edit_groups(references)[j].1[k]),
        (forall|a: int, b: int| 0 <= a < b < references.len() && (#[trigger] references[a]).uri@
            == (#[trigger] references[b]).uri@ ==> ranges_apart(references[a].range, references[b].range))
            ==> forall|j: int| 0 <= j < edit_groups(references).len() ==> pairwise_apart(
            #[trigger] edit_groups(references)[j].1,
        ),
    decreases references.len(),
{
    if references.len() > 0 {
        let prev = references.drop_last();
        let l = references.last();
        let n = references.len() - 1;
        lemma_edit_groups(prev);
        let g = edit_groups(prev);
        let h = edit_groups(references);
        lemma_group_index(g, l.uri@);
        let gi = group_index(g, l.uri@);
        assert forall|j: int, k: int| #![trigger h[j].1[k]] 0 <= j < h.len() && 0 <= k < h[j].1.len() implies referenced(
            references,
            h[j].0,
            h[j].1[k],
        ) by {
            if gi >= 0 && j == gi {
                assert(h == g.update(j, (l.uri@, g[j].1.push(l.range))));
                if k < g[j].1.len() {
                    assert(h[j].1[k] == g[j].1[k]);
                    assert(referenced(prev, g[j].0, g[j].1[k]));
                    let i = choose|i: int| 0 <= i < prev.len() && (#[trigger] prev[i]).uri@ == g[j].0 && prev[i].range == g[j].1[k];
                    assert(references[i] == prev[i]);
                    assert(references[i].uri@ == h[j].0 && references[i].range == h[j].1[k]);
                } else {
                    assert(h[j].1[k] == l.range);
                    assert(references[n] == l);
                    assert(references[n].uri@ == h[j].0 && references[n].range == h[j].1[k]);
                }
            } else if j < g.len() {
                if gi >= 0 {
                    assert(h == g.update(gi, (l.uri@, g[gi].1.push(l.range))));
                } else {
                    assert(h == g.push((l.uri@, seq![l.range])));
                }
                assert(h[j] == g[j]);
                assert(k < g[j].1.len());
                let gr = edit_groups(prev)[j].1[k];
                assert(0 <= j < edit_groups(prev).len() && 0 <= k < edit_groups(prev)[j].1.len());
                assert(referenced(prev, g[j].0, g[j].1[k]));
                let i = choose|i: int| 0 <= i < prev.len() && (#[trigger] prev[i]).uri@ == g[j].0 && prev[i].range == g[j].1[k];
                assert(references[i] == prev[i]);
                assert(references[i].uri@ == h[j].0 && references[i].range == h[j].1[k]);
            } else {
                assert(h == g.push((l.uri@, seq![l.range])));
                assert(h[j] == (l.uri@, seq![l.range]));
                assert(h[j].1[k] == l.range);
                assert(references[n] == l);
                assert(references[n].uri@ == h[j].0 && references[n].range == h[j].1[k]);
            }
        }
        assert(h == edit_groups(references));
        if forall|a: int, b: int| 0 <= a < b < references.len() && (#[trigger] references[a]).uri@
            == (#[trigger] references[b]).uri@ ==> ranges_apart(references[a].range, references[b].range) {
            assert forall|a: int, b: int| 0 <= a < b < prev.len() && (#[trigger] prev[a]).uri@
                == (#[trigger] prev[b]).uri@ implies ranges_apart(prev[a].range, prev[b].range) by {
                assert(prev[a] == references[a] && prev[b] == references[b]);
            }
            assert forall|j: int| 0 <= j < h.len() implies pairwise_apart(#[trigger] h[j].1) by {
                if gi >= 0 && j == gi {
                    let old = g[j].1;
                    assert(pairwise_apart(g[j].1));
                    assert(h[j].1 == old.push(l.range));
                    assert forall|x: int, y: int| 0 <= x < y < h[j].1.len() implies ranges_apart(
                        #[trigger] h[j].1[x],
                        #[trigger] h[j].1[y],
                    ) by {
                        if y < old.len() {
                            assert(h[j].1[x] == old[x] && h[j].1[y] == old[y]);
                        } else {
                            assert(h[j].1[x] == old[x]);
                            assert(referenced(prev, g[j].0, g[j].1[x]));
                            let i = choose|i: int| 0 <= i < prev.len() && (#[trigger] prev[i]).uri@ == g[j].0 && prev[i].range == g[j].1[x];
                            assert(references[i] == prev[i]);
                            assert(references[n] == l);
                            assert(ranges_apart(references[i].range, references[n].range));
                        }
                    }
                } else if j < g.len() {
                    assert(h[j] == g[j]);
                } else {
                    assert(h[j].1 == seq![l.range]);
                }
            }
        }
    } else {
        assert(edit_groups(references) =~= Seq::<(Seq<char>, Seq<Range>)>::empty());
    }
}

proof fn lemma_group_index_absent(g: Seq<(Seq<char>, Seq<Range>)>, uri: Seq<char>)
    ensures
        group_index(g, uri) == -1 ==> forall|j: int| 0 <= j < g.len() ==> (#[trigger] g[j]).0 != uri,
    decreases g.len(),
{
    if g.len() > 0 {
        lemma_group_index_absent(g.drop_last(), uri);
        if group_index(g, uri) == -1 {
            assert forall|j: int| 0 <= j < g.len() implies (#[trigger] g[j]).0 != uri by {
                if j < g.len() - 1 {
                    assert(g[j] == g.drop_last()[j]);
                }
            }
        }
    }
}

proof fn lemma_groups_cover(references: Seq<Location>)
    ensures
        forall|i: int|
            #![trigger references[i]]
            0 <= i < references.len() ==> exists|j: int, k: int|
                #![trigger edit_groups(references)[j].1[k]]
                0 <= j < edit_groups(references).len() && 0 <= k < edit_groups(references)[j].1.len()
                    && edit_groups(references)[j].0 == references[i].uri@ && edit_groups(references)[j].1[k]
                    == references[i].range,
    decreases references.len(),
{
    if references.len() > 0 {
        let prev = references.drop_last();
        let l = references.last();
        let n = references.len() - 1;
        lemma_groups_cover(prev);
        let g = edit_groups(prev);
        let h = edit_groups(references);
        lemma_group_index(g, l.uri@);
        let gi = group_index(g, l.uri@);
        assert forall|i: int| #![trigger references[i]] 0 <= i < references.len() implies exists|j: int, k: int|
            #![trigger h[j].1[k]]
            0 <= j < h.len() && 0 <= k < h[j].1.len() && h[j].0 == references[i].uri@ && h[j].1[k]
                == references[i].range by {
            if i == n {
                if gi >= 0 {
                    assert(h[gi].1[g[gi].1.len() as int] == references[i].range);
                } else {
                    assert(h[g.len() as int].1[0] == references[i].range);
                }
            } else {
                assert(references[i] == prev[i]);
                let (j, k) = choose|j: int, k: int|
                    #![trigger g[j].1[k]]
                    0 <= j < g.len() && 0 <= k < g[j].1.len() && g[j].0 == prev[i].uri@ && g[j].1[k] == prev[i].range;
                if gi >= 0 && j == gi {
                    assert(h[j].1[k] == g[j].1[k]);
                } else {
                    assert(h[j] == g[j]);
                }
            }
        }
    }
}

proof fn lemma_groups_distinct(references: Seq<Location>)
    ensures
        forall|a: int, b: int|
            0 <= a < b < edit_groups(references).len() ==> (#[trigger] edit_groups(references)[a]).0 != (
            #[trigger] edit_groups(references)[b]).0,
    decreases references.len(),
{
    if references.len() > 0 {
        let prev = references.drop_last();
        let l = references.last();
        lemma_groups_distinct(prev);
        let g = edit_groups(prev);
        let h = edit_groups(references);
        lemma_group_index(g, l.uri@);
        lemma_group_index_absent(g, l.uri@);
        let gi = group_index(g, l.uri@);
        assert forall|a: int, b: int| 0 <= a < b < h.len() implies (#[trigger] h[a]).0 != (#[trigger] h[b]).0 by {
            if gi >= 0 {
                assert(h[a].0 == g[a].0 && h[b].0 == g[b].0);
            } else if b < g.len() {
                assert(h[a] == g[a] && h[b] == g[b]);
            } else {
                assert(h[a] == g[a]);
            }
        }
    }
}

/// A rename edits every reference: each reference's range is in the group
/// of its document, and there is one group per document.
pub proof fn law_rename_covers_every_reference(references: Seq<Location>)
    ensures
        forall|i: int|
            #![trigger references[i]]
            0 <= i < references.len() ==> exists|j: int, k: int|
                #![trigger edit_groups(references)[j].1[k]]
                0 <= j < edit_groups(references).len() && 0 <= k < edit_groups(references)[j].1.len()
                    && edit_groups(references)[j].0 == references[i].uri@ && edit_groups(references)[j].1[k]
                    == references[i].range,
        forall|a: int, b: int|
            0 <= a < b < edit_groups(references).len() ==> (#[trigger] edit_groups(references)[a]).0 != (
            #[trigger] edit_groups(references)[b]).0,
{
    lemma_groups_cover(references);
    lemma_groups_distinct(references);
}

/// A rename edits nothing but references: every range of a document's
/// group is that of a reference to that document.
pub proof fn law_rename_edits_only_references(references: Seq<Location>, j: int, k: int)
    requires
        0 <= j < edit_groups(references).len(),
        0 <= k < edit_groups(references)[j].1.len(),
    ensures
        exists|i: int|
            0 <= i < references.len() && (#[trigger] references[i]).uri@ == edit_groups(references)[j].0
                && references[i].range == edit_groups(references)[j].1[k],
{
    lemma_edit_groups(references);
    assert(referenced(references, edit_groups(references)[j].0, edit_groups(references)[j].1[k]));
}

/// The edits of a rename, document by document: when every reference's range
/// ends no earlier than it starts and the references to one document do not
/// overlap, each group's edits are well formed, ordered from the last start
/// to the first, and no two of them overlap.
pub proof fn law_rename_edits_apart(references: Seq<Location>, j: int)
    requires
        forall|k: int| 0 <= k < references.len() ==> range_well_formed((#[trigger] references[k]).range),
        forall|a: int, b: int| 0 <= a < b < references.len() && (#[trigger] references[a]).uri@
            == (#[trigger] references[b]).uri@ ==> ranges_apart(references[a].range, references[b].range),
        0 <= j < edit_groups(references).len(),
    ensures
        ({
            let r = sorted_desc(edit_groups(references)[j].1);
            &&& forall|k: int| 0 <= k < r.len() ==> range_well_formed(#[trigger] r[k])
            &&& descending_starts(r)
            &&& pairwise_apart(r)
        }),
{
    lemma_edit_groups(references);
    let gr = edit_groups(references)[j].1;
    lemma_sorted_desc_order(gr);
    let r = sorted_desc(gr);
    assert forall|k: int| 0 <= k < r.len() implies range_well_formed(#[trigger] r[k]) by {
        let x = choose|x: int| 0 <= x < gr.len() && r[k] == gr[x];
        assert(referenced(references, edit_groups(references)[j].0, edit_groups(references)[j].1[x]));
        let i = choose|i: int| 0 <= i < references.len() && (#[trigger] references[i]).uri@ == edit_groups(references)[j].0
            && references[i].range == edit_groups(references)[j].1[x];
    }
}

} // verus!

//! Applying text edits to a document, the edit that starts last first, so
//! that earlier positions stay where they were.  Each edit replaces the text
//! of its range; all other text stays as it was, line breaks included.
use vstd::prelude::*;
use vstd::string::*;
use crate::ordering::{lemma_stable_sorted_elements, stable_sort, stable_sorted, Ranked};
use crate::rename::starts_after;
use crate::protocol::{Range, TextEdit};
use crate::text::{
    byte_len, chars_in_bytes, chars_of, is_byte_boundary, lines, lines_of, locate_byte_offset,
    split_newlines, string_from_chars,
};

verus! {

/// Why an edit could not be applied.
#[derive(Debug, Clone, Copy, PartialEq, Eq, Structural)]
pub enum EditError {
    /// The edit starts on a line the document does not have.
    StartLineBeyondDocument,
    /// A one-line edit reaches beyond the end of its line.
    InvalidCharacterRange,
    /// An edit over several lines ends on a line the document does not have.
    EndLineBeyondDocument,
    /// The edit's range ends before it starts.
    RangeEndsBeforeStart,
}

/// What applying edits to a text comes to.
pub enum EditsOutcome {
    /// Every edit applied: the resulting text.
    Applied(Seq<char>),
    /// An edit failed.
    Failed(EditError),
    /// Slicing a line at an edit's offsets would panic (an offset inside a
    /// character, or beyond the line).
    Crash,
}

/// The part of `line` before byte offset `b`.
pub open spec fn before_byte(line: Seq<char>, b: int) -> Seq<char> {
    line.take(chars_in_bytes(line, b))
}

/// The part of `line` from byte offset `b` on.
pub open spec fn from_byte(line: Seq<char>, b: int) -> Seq<char> {
    line.skip(chars_in_bytes(line, b))
}

/// Slicing `line` at byte offset `b` does not panic.
pub open spec fn cuts(line: Seq<char>, b: int) -> bool {
    b <= byte_len(line) && is_byte_boundary(line, b)
}

/// Where line `l` of `s` starts: the number of characters before it, each
/// earlier line counted with its line break.
pub open spec fn line_start(s: Seq<char>, l: int) -> int
    decreases l,
{
    if l <= 0 {
        0
    } else {
        line_start(s, l - 1) + split_newlines(s)[l - 1].len() + 1
    }
}

/// The index in `s` of the character at byte offset `b` of line `l`.
pub open spec fn text_offset(s: Seq<char>, l: int, b: int) -> int {
    line_start(s, l) + chars_in_bytes(lines_of(s)[l], b)
}

/// `s` with the characters from index `a` up to index `b` replaced by `x`.
pub open spec fn spliced(s: Seq<char>, a: int, b: int, x: Seq<char>) -> Seq<char> {
    s.take(a) + x + s.skip(b)
}

/// One edit applied to a text.  Character offsets are byte offsets in their
/// lines (a line without its line break).  The text of the range is replaced
/// by the new text; everything before and after it is kept as it was.
pub open spec fn edit_step(t: Seq<char>, e: TextEdit) -> EditsOutcome {
    let ls = lines_of(t);
    let sl = e.range.start.line as int;
    let el = e.range.end.line as int;
    let sc = e.range.start.character as int;
    let ec = e.range.end.character as int;
    if sl >= ls.len() {
        EditsOutcome::Failed(EditError::StartLineBeyondDocument)
    } else if sl == el {
        let line = ls[sl];
        if sc > byte_len(line) || ec > byte_len(line) {
            EditsOutcome::Failed(EditError::InvalidCharacterRange)
        } else if !is_byte_boundary(line, sc) || !is_byte_boundary(line, ec) {
            EditsOutcome::Crash
        } else if sc > ec {
            EditsOutcome::Failed(EditError::RangeEndsBeforeStart)
        } else {
            EditsOutcome::Applied(
                spliced(t, text_offset(t, sl, sc), text_offset(t, sl, ec), e.new_text@),
            )
        }
    } else if el >= ls.len() {
        EditsOutcome::Failed(EditError::EndLineBeyondDocument)
    } else if !cuts(ls[sl], sc) || !cuts(ls[el], ec) {
        EditsOutcome::Crash
    } else if sl > el {
        EditsOutcome::Failed(EditError::RangeEndsBeforeStart)
    } else {
        EditsOutcome::Applied(
            spliced(t, text_offset(t, sl, sc), text_offset(t, el, ec), e.new_text@),
        )
    }
}

/// The edits applied in the order given.  Strictly, the first edit that
/// fails stops the run with its error; leniently, an edit that fails is
/// passed over.
pub open spec fn edits_outcome(t: Seq<char>, edits: Seq<TextEdit>, lenient: bool) -> EditsOutcome
    decreases edits.len(),
{
    if edits.len() == 0 {
        EditsOutcome::Applied(t)
    } else {
        match edits_outcome(t, edits.drop_last(), lenient) {
            EditsOutcome::Applied(m) => match edit_step(m, edits.last()) {
                EditsOutcome::Failed(err) => if lenient {
                    EditsOutcome::Applied(m)
                } else {
                    EditsOutcome::Failed(err)
                },
                other => other,
            },
            other => other,
        }
    }
}

/// An edit's range and its place in the list of edits.
#[derive(Debug, Clone, Copy)]
pub struct EditKey {
    pub range: Range,
    pub index: usize,
}

impl Ranked for EditKey {
    /// The edit that starts last goes first.
    open spec fn precedes(&self, other: &Self) -> bool {
        starts_after(self.range, other.range)
    }

    fn goes_before(&self, other: &Self) -> (r: bool) {
        self.range.start.line > other.range.start.line || (self.range.start.line
            == other.range.start.line && self.range.start.character > other.range.start.character)
    }
}

pub open spec fn edit_keys(edits: Seq<TextEdit>) -> Seq<EditKey> {
    Seq::new(edits.len(), |i: int| EditKey { range: edits[i].range, index: i as usize })
}

/// The edits in the order they are applied: the one that starts last first,
/// edits starting at the same place in the order given.
pub open spec fn edits_in_order(edits: Seq<TextEdit>) -> Seq<TextEdit> {
    stable_sorted(edit_keys(edits)).map_values(|k: EditKey| edits[k.index as int])
}

/// The edits applied to a document, in `edits_in_order`, stopping at the
/// first that fails.
pub open spec fn document_edits_outcome(content: Seq<char>, edits: Seq<TextEdit>) -> EditsOutcome {
    edits_outcome(content, edits_in_order(edits), false)
}

/// The edits applied to a document, in `edits_in_order`, passing over those
/// that fail.
pub open spec fn lenient_edits_outcome(content: Seq<char>, edits: Seq<TextEdit>) -> EditsOutcome {
    edits_outcome(content, edits_in_order(edits), true)
}

/// Whether the first `k` characters of `line` take exactly `b` bytes, given
/// that they take at least `b` and one fewer takes less.
fn prefix_takes_exactly(line: &[char], k: usize, b: u32) -> (r: bool)
    requires
        k <= line@.len(),
        byte_len(line@.take(k as int)) >= b,
        k > 0 ==> byte_len(line@.take(k - 1)) < b,
    ensures
        r == (byte_len(line@.take(k as int)) == b),
{
    let mut acc: u64 = 0;
    let mut i: usize = 0;
    assert(line@.take(0) =~= Seq::<char>::empty());
    while i < k
        invariant
            0 <= i <= k <= line@.len(),
            acc == byte_len(line@.take(i as int)),
            k > 0 ==> byte_len(line@.take(k - 1)) < b,
        decreases k - i,
    {
        proof {
            crate::text::lemma_byte_len_take_step(line@, i as int);
            crate::text::lemma_byte_len_take_monotone(line@, i as int, k - 1);
        }
        acc = acc + crate::text::char_utf8_width(line[i]) as u64;
        i = i + 1;
    }
    acc == b as u64
}

/// The characters of `line` before byte offset `b`, and from it on, when `b`
/// is a boundary within the line.
pub(crate) fn split_at_byte(line: &[char], b: u32) -> (r: Option<(Vec<char>, Vec<char>)>)
    ensures
        r matches Some(p) ==> cuts(line@, b as int) && p.0@ == before_byte(line@, b as int)
            && p.1@ == from_byte(line@, b as int),
        r is None ==> !cuts(line@, b as int),
{
    match locate_byte_offset(line, b as usize) {
        None => None,
        Some(k) => {
            if !prefix_takes_exactly(line, k, b) {
                return None;
            }
            proof {
                crate::text::lemma_chars_in_bytes_unique(line@, k as int);
            }
            let mut head: Vec<char> = Vec::new();
            let mut tail: Vec<char> = Vec::new();
            let mut i: usize = 0;
            while i < line.len()
                invariant
                    0 <= i <= line@.len(),
                    k <= line@.len(),
                    i <= k ==> head@ == line@.take(i as int) && tail@.len() == 0,
                    i > k ==> head@ == line@.take(k as int) && tail@ == line@.subrange(
                        k as int,
                        i as int,
                    ),
                decreases line.len() - i,
            {
                if i < k {
                    head.push(line[i]);
                    assert(head@ =~= line@.take(i + 1));
                } else {
                    tail.push(line[i]);
                    assert(tail@ =~= line@.subrange(k as int, i + 1));
                }
                i = i + 1;
            }
            assert(head@ =~= line@.take(k as int));
            assert(tail@ =~= line@.skip(k as int));
            Some((head, tail))
        },
    }
}

/// How one edit went.
enum Step {
    Applied,
    Failed(EditError),
    WouldPanic,
}

proof fn lemma_line_start_push(t: Seq<char>, c: char, j: int)
    requires
        0 <= j < split_newlines(t).len(),
    ensures
        line_start(t.push(c), j) == line_start(t, j),
    decreases j,
{
    if j > 0 {
        lemma_line_start_push(t, c, j - 1);
        assert(t.push(c).drop_last() =~= t);
        let p = split_newlines(t);
        let q = split_newlines(t.push(c));
        if c == '\n' {
            assert(q == p.push(Seq::<char>::empty()));
        } else {
            assert(q == p.update(p.len() - 1, p.last().push(c)));
        }
        assert(q[j - 1] == p[j - 1]);
    }
}

/// The start of each line of `s` (one for each piece between line feeds).
fn line_starts(s: &[char]) -> (r: Vec<usize>)
    ensures
        r@.len() == split_newlines(s@).len(),
        forall|l: int| 0 <= l < r@.len() ==> #[trigger] r@[l] == line_start(s@, l),
        forall|l: int|
            0 <= l < r@.len() ==> #[trigger] r@[l] + split_newlines(s@)[l].len() <= s@.len(),
{
    let mut starts: Vec<usize> = Vec::new();
    starts.push(0);
    let mut i: usize = 0;
    assert(s@.take(0) =~= Seq::<char>::empty());
    while i < s.len()
        invariant
            0 <= i <= s@.len(),
            starts@.len() == split_newlines(s@.take(i as int)).len(),
            starts@.len() >= 1,
            forall|l: int|
                0 <= l < starts@.len() ==> #[trigger] starts@[l] == line_start(
                    s@.take(i as int),
                    l,
                ),
            forall|l: int|
                0 <= l < starts@.len() ==> #[trigger] starts@[l] + split_newlines(
                    s@.take(i as int),
                )[l].len() <= i,
            starts@[starts@.len() - 1] + split_newlines(s@.take(i as int)).last().len() == i,
        decreases s.len() - i,
    {
        let ghost t = s@.take(i as int);
        let ghost p = split_newlines(t);
        let ghost n = p.len() as int;
        let ghost prev = starts@;
        let c = s[i];
        assert(s@.take(i + 1) =~= t.push(c));
        assert(t.push(c).drop_last() =~= t);
        let ghost q = split_newlines(t.push(c));
        if c == '\n' {
            assert(q == p.push(Seq::<char>::empty()));
            starts.push(i + 1);
            proof {
                assert forall|l: int| 0 <= l < starts@.len() implies #[trigger] starts@[l]
                    == line_start(t.push(c), l) by {
                    if l < n {
                        lemma_line_start_push(t, c, l);
                        assert(starts@[l] == prev[l]);
                    } else {
                        lemma_line_start_push(t, c, n - 1);
                        assert(starts@[l] == i + 1);
                        assert(q[n - 1] == p[n - 1]);
                    }
                }
                assert forall|l: int| 0 <= l < starts@.len() implies #[trigger] starts@[l]
                    + q[l].len() <= i + 1 by {
                    if l < n {
                        assert(starts@[l] == prev[l]);
                        assert(q[l] == p[l]);
                    }
                }
            }
        } else {
            assert(q == p.update(n - 1, p.last().push(c)));
            proof {
                assert forall|l: int| 0 <= l < starts@.len() implies #[trigger] starts@[l]
                    == line_start(t.push(c), l) by {
                    lemma_line_start_push(t, c, l);
                }
                assert forall|l: int| 0 <= l < starts@.len() implies #[trigger] starts@[l]
                    + q[l].len() <= i + 1 by {
                    if l < n - 1 {
                        assert(q[l] == p[l]);
                    }
                }
            }
        }
        i = i + 1;
    }
    assert(s@.take(s.len() as int) =~= s@);
    starts
}

/// `s` with the characters from `a` up to `b` replaced by the characters of `x`.
fn splice(s: &[char], a: usize, b: usize, x: &str) -> (r: Vec<char>)
    requires
        a <= s@.len(),
        b <= s@.len(),
    ensures
        r@ == spliced(s@, a as int, b as int, x@),
{
    let mut r: Vec<char> = Vec::new();
    let mut i: usize = 0;
    while i < a
        invariant
            0 <= i <= a <= s@.len(),
            r@ == s@.take(i as int),
        decreases a - i,
    {
        r.push(s[i]);
        i = i + 1;
        assert(r@ =~= s@.take(i as int));
    }
    let xs = chars_of(x);
    let mut j: usize = 0;
    while j < xs.len()
        invariant
            0 <= j <= xs@.len(),
            r@ == s@.take(a as int) + xs@.take(j as int),
        decreases xs.len() - j,
    {
        r.push(xs[j]);
        j = j + 1;
        assert(r@ =~= s@.take(a as int) + xs@.take(j as int));
    }
    assert(xs@.take(xs@.len() as int) =~= x@);
    let mut k: usize = b;
    while k < s.len()
        invariant
            b <= k <= s@.len(),
            r@ == s@.take(a as int) + x@ + s@.subrange(b as int, k as int),
        decreases s.len() - k,
    {
        r.push(s[k]);
        k = k + 1;
        assert(r@ =~= s@.take(a as int) + x@ + s@.subrange(b as int, k as int));
    }
    assert(s@.subrange(b as int, s@.len() as int) =~= s@.skip(b as int));
    r
}

proof fn lemma_line_within_piece(s: Seq<char>, l: int)
    requires
        0 <= l < lines_of(s).len(),
    ensures
        l < split_newlines(s).len(),
        lines_of(s)[l].len() <= split_newlines(s)[l].len(),
{
    crate::text::lemma_split_newlines_nonempty(s);
}

/// Applies one edit to the text, or reports that slicing would panic.
fn apply_edit(t: &Vec<char>, e: &TextEdit) -> (r: (Step, Vec<char>))
    ensures
        match edit_step(t@, *e) {
            EditsOutcome::Applied(m) => r.0 is Applied && r.1@ == m,
            EditsOutcome::Failed(err) => r.0 == Step::Failed(err),
            EditsOutcome::Crash => r.0 is WouldPanic,
        },
{
    let ls = lines(t.as_slice());
    let ghost gl = lines_of(t@);
    let sl = e.range.start.line as usize;
    let el = e.range.end.line as usize;
    let sc = e.range.start.character;
    let ec = e.range.end.character;
    if sl >= ls.len() {
        return (Step::Failed(EditError::StartLineBeyondDocument), Vec::new());
    }
    let starts = line_starts(t.as_slice());
    proof {
        lemma_line_within_piece(t@, sl as int);
    }
    if sl == el {
        let line = &ls[sl];
        assert(line@ == gl[sl as int]);
        let start = split_at_byte(line.as_slice(), sc);
        let end = split_at_byte(line.as_slice(), ec);
        match (start, end) {
            (Some(a), Some(b)) => {
                if sc > ec {
                    return (Step::Failed(EditError::RangeEndsBeforeStart), Vec::new());
                }
                let ka = a.0.len();
                let kb = b.0.len();
                assert(ka == chars_in_bytes(line@, sc as int));
                assert(kb == chars_in_bytes(line@, ec as int));
                assert(ka <= line@.len() && kb <= line@.len());
                assert(starts@[sl as int] + split_newlines(t@)[sl as int].len() <= t@.len());
                assert(lines_of(t@)[sl as int].len() <= split_newlines(t@)[sl as int].len());
                assert(starts[sl as int] + ka <= t.len());
                assert(starts[sl as int] + kb <= t.len());
                let out = splice(t.as_slice(), starts[sl] + ka, starts[sl] + kb, e.new_text.as_str());
                (Step::Applied, out)
            },
            _ => {
                if beyond(line.as_slice(), sc) || beyond(line.as_slice(), ec) {
                    (Step::Failed(EditError::InvalidCharacterRange), Vec::new())
                } else {
                    (Step::WouldPanic, Vec::new())
                }
            },
        }
    } else {
        if el >= ls.len() {
            return (Step::Failed(EditError::EndLineBeyondDocument), Vec::new());
        }
        proof {
            lemma_line_within_piece(t@, el as int);
        }
        let start = split_at_byte(ls[sl].as_slice(), sc);
        let end = split_at_byte(ls[el].as_slice(), ec);
        match (start, end) {
            (Some(a), Some(b)) => {
                if sl > el {
                    return (Step::Failed(EditError::RangeEndsBeforeStart), Vec::new());
                }
                let ka = a.0.len();
                let kb = b.0.len();
                assert(ka == chars_in_bytes(gl[sl as int], sc as int));
                assert(kb == chars_in_bytes(gl[el as int], ec as int));
                assert(ka <= gl[sl as int].len() && kb <= gl[el as int].len());
                assert(starts@[sl as int] + split_newlines(t@)[sl as int].len() <= t@.len());
                assert(starts@[el as int] + split_newlines(t@)[el as int].len() <= t@.len());
                assert(starts[sl as int] + ka <= t.len());
                assert(starts[el as int] + kb <= t.len());
                let out = splice(t.as_slice(), starts[sl] + ka, starts[el] + kb, e.new_text.as_str());
                (Step::Applied, out)
            },
            _ => (Step::WouldPanic, Vec::new()),
        }
    }
}

/// Whether byte offset `b` lies beyond the end of `line`.
fn beyond(line: &[char], b: u32) -> (r: bool)
    ensures
        r == (b > byte_len(line@)),
{
    locate_byte_offset(line, b as usize).is_none()
}

/// Whether applying the edits to the content, stopping at the first that
/// fails, goes without a panic (see `EditsOutcome::Crash`).
pub fn text_edits_apply(content: &str, text_edits: &Vec<TextEdit>) -> (r: bool)
    ensures
        r == !(document_edits_outcome(content@, text_edits@) is Crash),
{
    match run_edits(content, text_edits, false).0 {
        Step::WouldPanic => false,
        _ => true,
    }
}

/// Whether applying the edits to the content, passing over those that fail,
/// goes without a panic.
pub fn text_edits_replace(content: &str, text_edits: &Vec<TextEdit>) -> (r: bool)
    ensures
        r == !(lenient_edits_outcome(content@, text_edits@) is Crash),
{
    match run_edits(content, text_edits, true).0 {
        Step::WouldPanic => false,
        _ => true,
    }
}

/// Once an edit fails or would panic, later edits change nothing of the outcome.
proof fn lemma_edits_settled(t: Seq<char>, edits: Seq<TextEdit>, i: int, lenient: bool)
    requires
        0 < i <= edits.len(),
        !(edits_outcome(t, edits.take(i), lenient) is Applied),
    ensures
        edits_outcome(t, edits, lenient) == edits_outcome(t, edits.take(i), lenient),
    decreases edits.len() - i,
{
    if i < edits.len() {
        assert(edits.take(i + 1).drop_last() =~= edits.take(i));
        lemma_edits_settled(t, edits, i + 1, lenient);
    } else {
        assert(edits.take(i) =~= edits);
    }
}

/// Runs the edits over the content, in `edits_in_order`.
fn run_edits(content: &str, text_edits: &Vec<TextEdit>, lenient: bool) -> (r: (Step, Vec<char>))
    ensures
        match edits_outcome(content@, edits_in_order(text_edits@), lenient) {
            EditsOutcome::Applied(m) => r.0 is Applied && r.1@ == m,
            EditsOutcome::Failed(err) => r.0 == Step::Failed(err),
            EditsOutcome::Crash => r.0 is WouldPanic,
        },
{
    let mut text = chars_of(content);
    let ghost start = content@;
    let mut keys: Vec<EditKey> = Vec::new();
    let mut i: usize = 0;
    while i < text_edits.len()
        invariant
            0 <= i <= text_edits@.len(),
            keys@ == edit_keys(text_edits@).take(i as int),
        decreases text_edits.len() - i,
    {
        keys.push(EditKey { range: text_edits[i].range, index: i });
        i = i + 1;
        assert(keys@ =~= edit_keys(text_edits@).take(i as int));
    }
    assert(edit_keys(text_edits@).take(text_edits@.len() as int) =~= edit_keys(text_edits@));
    let sorted = stable_sort(keys);
    let ghost order = edits_in_order(text_edits@);
    proof {
        lemma_stable_sorted_elements(edit_keys(text_edits@));
    }
    assert forall|j: int| 0 <= j < sorted@.len() implies (#[trigger] sorted@[j]).index < text_edits@.len() by {
        let k = choose|k: int| 0 <= k < edit_keys(text_edits@).len() && stable_sorted(edit_keys(text_edits@))[j] == #[trigger] edit_keys(text_edits@)[k];
    }
    let mut j: usize = 0;
    assert(order.take(0) =~= Seq::<TextEdit>::empty());
    while j < sorted.len()
        invariant
            0 <= j <= sorted@.len(),
            sorted@ == stable_sorted(edit_keys(text_edits@)),
            order == edits_in_order(text_edits@),
            order.len() == sorted@.len(),
            forall|k: int| 0 <= k < sorted@.len() ==> (#[trigger] sorted@[k]).index < text_edits@.len(),
            start == content@,
            edits_outcome(start, order.take(j as int), lenient) == EditsOutcome::Applied(text@),
        decreases sorted.len() - j,
    {
        let idx = sorted[j].index;
        assert(order[j as int] == text_edits@[idx as int]);
        assert(order.take(j + 1).drop_last() =~= order.take(j as int));
        let (step, next) = apply_edit(&text, &text_edits[idx]);
        match step {
            Step::Applied => {
                text = next;
            },
            Step::Failed(e) => {
                if !lenient {
                    proof {
                        lemma_edits_settled(start, order, j + 1, lenient);
                    }
                    return (Step::Failed(e), text);
                }
            },
            Step::WouldPanic => {
                proof {
                    lemma_edits_settled(start, order, j + 1, lenient);
                }
                return (Step::WouldPanic, text);
            },
        }
        j = j + 1;
    }
    assert(order.take(order.len() as int) =~= order);
    (Step::Applied, text)
}

/// The document's content with the edits applied, the one that starts last
/// first: each edit's range replaced by its new text, all other text kept
/// as it was.  The first edit that fails gives its error.  Requires that no
/// slicing panics (see `text_edits_apply`).
pub fn apply_text_edits(content: &str, text_edits: &Vec<TextEdit>) -> (r: Result<String, EditError>)
    requires
        !(document_edits_outcome(content@, text_edits@) is Crash),
    ensures
        match document_edits_outcome(content@, text_edits@) {
            EditsOutcome::Applied(m) => r matches Ok(t) && t@ == m,
            EditsOutcome::Failed(err) => r == Err::<String, EditError>(err),
            EditsOutcome::Crash => false,
        },
{
    let (step, text) = run_edits(content, text_edits, false);
    match step {
        Step::Failed(e) => Err(e),
        _ => Ok(string_from_chars(text.as_slice())),
    }
}

/// The content with the edits applied, the one that starts last first,
/// passing over edits that fail.  Requires that no slicing panics (see
/// `text_edits_replace`).
pub fn replace_text_ranges(content: &str, text_edits: &Vec<TextEdit>) -> (r: String)
    requires
        !(lenient_edits_outcome(content@, text_edits@) is Crash),
    ensures
        lenient_edits_outcome(content@, text_edits@) matches EditsOutcome::Applied(m) && r@ == m,
{
    proof {
        lemma_lenient_never_fails(content@, edits_in_order(text_edits@));
    }
    let (_, text) = run_edits(content, text_edits, true);
    string_from_chars(text.as_slice())
}

proof fn lemma_lenient_never_fails(t: Seq<char>, edits: Seq<TextEdit>)
    ensures
        !(edits_outcome(t, edits, true) is Failed),
    decreases edits.len(),
{
    if edits.len() > 0 {
        lemma_lenient_never_fails(t, edits.drop_last());
    }
}

/// Applying no edits gives back the content unchanged.
pub proof fn law_no_edits_keep_text(content: Seq<char>)
    ensures
        document_edits_outcome(content, Seq::empty()) == EditsOutcome::Applied(content),
        lenient_edits_outcome(content, Seq::empty()) == EditsOutcome::Applied(content),
{
    lemma_stable_sorted_elements(edit_keys(Seq::<TextEdit>::empty()));
    assert(edits_in_order(Seq::<TextEdit>::empty()) =~= Seq::<TextEdit>::empty());
}

/// A single edit that applies keeps the text before its range and the text
/// after it exactly as they were: the result is the content up to the
/// range's start, the new text, and the content from the range's end on.
pub proof fn law_single_edit_keeps_surroundings(content: Seq<char>, e: TextEdit)
    requires
        document_edits_outcome(content, seq![e]) is Applied,
    ensures
        ({
            let a = text_offset(content, e.range.start.line as int, e.range.start.character as int);
            let b = text_offset(content, e.range.end.line as int, e.range.end.character as int);
            document_edits_outcome(content, seq![e]) == EditsOutcome::Applied(
                content.take(a) + e.new_text@ + content.skip(b),
            )
        }),
{
    lemma_stable_sorted_elements(edit_keys(seq![e]));
    let o = edits_in_order(seq![e]);
    assert(o.len() == 1);
    let k = stable_sorted(edit_keys(seq![e]))[0];
    assert(exists|i: int| 0 <= i < 1 && k == #[trigger] edit_keys(seq![e])[i]);
    assert(o =~= seq![e]);
    assert(o.drop_last() =~= Seq::<TextEdit>::empty());
    assert(edits_outcome(content, o.drop_last(), false) == EditsOutcome::Applied(content));
    assert(edits_outcome(content, o, false) == edit_step(content, e));
}

/// A module rename's single edit that applies keeps the text before its
/// range and the text after it exactly as they were (the edits are applied
/// as `module_rename::apply_text_edits` applies them).
pub proof fn law_single_replacement_keeps_surroundings(content: Seq<char>, e: TextEdit)
    requires
        edit_step(content, e) is Applied,
    ensures
        ({
            let a = text_offset(content, e.range.start.line as int, e.range.start.character as int);
            let b = text_offset(content, e.range.end.line as int, e.range.end.character as int);
            lenient_edits_outcome(content, seq![e]) == EditsOutcome::Applied(
                content.take(a) + e.new_text@ + content.skip(b),
            )
        }),
{
    lemma_stable_sorted_elements(edit_keys(seq![e]));
    let o = edits_in_order(seq![e]);
    let k = stable_sorted(edit_keys(seq![e]))[0];
    assert(exists|i: int| 0 <= i < 1 && k == #[trigger] edit_keys(seq![e])[i]);
    assert(o =~= seq![e]);
    assert(o.drop_last() =~= Seq::<TextEdit>::empty());
    assert(edits_outcome(content, o.drop_last(), true) == EditsOutcome::Applied(content));
    assert(edits_outcome(content, o, true) == edit_step(content, e));
}

} // verus!

//! Code actions: quick fixes read from the compiler's diagnostics (a missing
//! import, a type to convert, an unused import) and adding a type signature
//! to the function under the cursor.
use vstd::prelude::*;
use vstd::string::*;
use crate::chars::{char_is_white_space, is_white_space};
use crate::completion_items::{find_text, first_occurrence, first_occurrence_from};
use crate::diagnostics::{copy_diagnostic, diagnostic_model, Diagnostic, DiagnosticModel};
use crate::line_scan::{
    contains_text, has_prefix, occurs_at, slice_chars, starts_with, str_contains, trim, trim_chars,
};
use crate::ordering::str_equal;
use crate::protocol::{position_le, Position, Range, TextEdit};
use crate::rename::{FileEdits, WorkspaceEdit};
use crate::symbols::Symbol;
use crate::text::{chars_of, string_from_chars};

verus! {

/// Whether a diagnostic's message tells of a name the module cannot see.
pub open spec fn missing_import_message(m: Seq<char>) -> bool {
    contains_text(m, "I cannot find"@) || contains_text(m, "not in scope"@) || contains_text(
        m,
        "undefined"@,
    ) || contains_text(m, "not found"@)
}

/// Whether a diagnostic's message tells of a type mismatch.
pub open spec fn type_mismatch_message(m: Seq<char>) -> bool {
    contains_text(m, "type mismatch"@) || (contains_text(m, "expected"@) && contains_text(
        m,
        "but got"@,
    )) || contains_text(m, "cannot match"@)
}

/// Whether a diagnostic's message tells of an unused import.
pub open spec fn unused_import_message(m: Seq<char>) -> bool {
    contains_text(m, "unused import"@) || contains_text(m, "imported but not used"@)
}

pub fn is_missing_import_error(message: &str) -> (r: bool)
    ensures
        r == missing_import_message(message@),
{
    str_contains(message, "I cannot find") || str_contains(message, "not in scope") || str_contains(
        message,
        "undefined",
    ) || str_contains(message, "not found")
}

pub fn is_type_mismatch_error(message: &str) -> (r: bool)
    ensures
        r == type_mismatch_message(message@),
{
    str_contains(message, "type mismatch") || (str_contains(message, "expected") && str_contains(
        message,
        "but got",
    )) || str_contains(message, "cannot match")
}

pub fn is_unused_import_warning(message: &str) -> (r: bool)
    ensures
        r == unused_import_message(message@),
{
    str_contains(message, "unused import") || str_contains(message, "imported but not used")
}

/// Where the first white-space character of `s` is, from `i` on, or -1.
pub open spec fn first_white_space_from(s: Seq<char>, i: int) -> int
    decreases s.len() - i,
{
    if i < 0 || i >= s.len() {
        -1
    } else if is_white_space(s[i]) {
        i
    } else {
        first_white_space_from(s, i + 1)
    }
}

proof fn lemma_first_quote_from(s: Seq<char>, i: int, k: int)
    requires
        0 <= k <= i < s.len(),
        s[i] == '\'',
        forall|j: int| 0 <= j < i ==> s[j] != '\'',
    ensures
        first_occurrence_from(s, seq!['\''], k) == i,
    decreases i - k,
{
    if k < i {
        assert(!occurs_at(s, seq!['\''], k)) by {
            if occurs_at(s, seq!['\''], k) {
                assert(s.subrange(k, k + 1)[0] == s[k]);
            }
        }
        lemma_first_quote_from(s, i, k + 1);
    } else {
        assert(s.subrange(i, i + 1) =~= seq!['\'']);
    }
}

/// The name a quick fix imports is the one a diagnostic quotes: in a
/// message `a'x'b` where neither `a` nor `x` holds a single quote, it is `x`.
pub proof fn law_quoted_name_is_undefined(a: Seq<char>, x: Seq<char>, b: Seq<char>)
    requires
        forall|j: int| 0 <= j < a.len() ==> a[j] != '\'',
        forall|j: int| 0 <= j < x.len() ==> x[j] != '\'',
    ensures
        undefined_symbol_of(a + seq!['\''] + x + seq!['\''] + b) == Some(x),
{
    reveal_strlit("'");
    assert("'"@ =~= seq!['\'']);
    let m = a + seq!['\''] + x + seq!['\''] + b;
    lemma_first_quote_from(m, a.len() as int, 0);
    let rest = m.skip(a.len() + 1int);
    assert(rest =~= x + seq!['\''] + b);
    lemma_first_quote_from(rest, x.len() as int, 0);
    assert(m.subrange(a.len() + 1int, a.len() + 1int + x.len()) =~= x);
}

/// The name a diagnostic says is undefined: the text between its first two
/// single quotes; else the word after `I cannot find ` (up to white space).
pub open spec fn undefined_symbol_of(m: Seq<char>) -> Option<Seq<char>> {
    let q = first_occurrence(m, "'"@);
    let e = first_occurrence(m.skip(q + 1), "'"@);
    if q >= 0 && e >= 0 {
        Some(m.subrange(q + 1, q + 1 + e))
    } else if contains_text(m, "I cannot find"@) {
        let st = first_occurrence(m, "I cannot find "@);
        let from = st + 14;
        let w = first_white_space_from(m.skip(from), 0);
        if st >= 0 && w >= 0 {
            Some(m.subrange(from, from + w))
        } else {
            None
        }
    } else {
        None
    }
}

proof fn lemma_first_occurrence_bounds(s: Seq<char>, p: Seq<char>)
    ensures
        first_occurrence(s, p) >= -1,
        first_occurrence(s, p) >= 0 ==> first_occurrence(s, p) + p.len() <= s.len(),
{
    lemma_first_occurrence_from_bounds(s, p, 0);
}

proof fn lemma_first_occurrence_from_bounds(s: Seq<char>, p: Seq<char>, i: int)
    ensures
        crate::completion_items::first_occurrence_from(s, p, i) >= -1,
        crate::completion_items::first_occurrence_from(s, p, i) >= 0 ==> crate::completion_items::first_occurrence_from(
            s,
            p,
            i,
        ) + p.len() <= s.len(),
    decreases s.len() + 1 - i,
{
    if 0 <= i <= s.len() && !crate::line_scan::occurs_at(s, p, i) {
        lemma_first_occurrence_from_bounds(s, p, i + 1);
    }
}

/// Where `p` first occurs in `s` from `from` on, counted from `from`.
fn find_from(s: &[char], p: &[char], from: usize) -> (r: Option<usize>)
    requires
        from <= s@.len(),
    ensures
        r matches Some(i) ==> i == first_occurrence(s@.skip(from as int), p@) && from + i + p@.len()
            <= s@.len(),
        r is None ==> first_occurrence(s@.skip(from as int), p@) == -1,
{
    let rest = slice_chars(s, from, s.len());
    assert(rest@ =~= s@.skip(from as int));
    proof {
        lemma_first_occurrence_bounds(rest@, p@);
    }
    let r = find_text(rest.as_slice(), p);
    r
}

fn first_white_space(s: &[char]) -> (r: Option<usize>)
    ensures
        r matches Some(i) ==> i == first_white_space_from(s@, 0) && i < s@.len(),
        r is None ==> first_white_space_from(s@, 0) == -1,
{
    let mut i: usize = 0;
    while i < s.len()
        invariant
            0 <= i <= s@.len(),
            first_white_space_from(s@, 0) == first_white_space_from(s@, i as int),
        decreases s.len() - i,
    {
        if char_is_white_space(s[i]) {
            return Some(i);
        }
        i = i + 1;
    }
    None
}

fn text_of(s: &[char], from: usize, to: usize) -> (r: String)
    requires
        from <= to <= s@.len(),
    ensures
        r@ == s@.subrange(from as int, to as int),
{
    let v = slice_chars(s, from, to);
    string_from_chars(v.as_slice())
}

/// The name the diagnostic says is undefined (see `undefined_symbol_of`).
pub fn extract_undefined_symbol(message: &str) -> (r: Option<String>)
    ensures
        r is Some <==> undefined_symbol_of(message@) is Some,
        r matches Some(n) ==> undefined_symbol_of(message@) == Some(n@),
{
    let m = chars_of(message);
    let quote = chars_of("'");
    let intro = chars_of("I cannot find ");
    proof {
        reveal_strlit("'");
        reveal_strlit("I cannot find ");
        lemma_first_occurrence_bounds(m@, quote@);
        lemma_first_occurrence_bounds(m@, intro@);
    }
    if let Some(q) = find_text(m.as_slice(), quote.as_slice()) {
        if let Some(e) = find_from(m.as_slice(), quote.as_slice(), q + 1) {
            return Some(text_of(m.as_slice(), q + 1, q + 1 + e));
        }
    }
    if str_contains(message, "I cannot find") {
        if let Some(st) = find_text(m.as_slice(), intro.as_slice()) {
            let mlen: usize = m.len();
            assert(intro@.len() == 14);
            assert(st + 14 <= mlen);
            let from = st + 14;
            let rest = slice_chars(m.as_slice(), from, m.len());
            assert(rest@ =~= m@.skip(from as int));
            if let Some(w) = first_white_space(rest.as_slice()) {
                return Some(text_of(m.as_slice(), from, from + w));
            }
        }
    }
    None
}

/// The conversion that turns a value of the actual type into the expected one.
pub open spec fn suggested_conversion(expected: Seq<char>, actual: Seq<char>) -> Option<Seq<char>> {
    if expected == "Int"@ && actual == "String"@ {
        Some("String.toInt"@)
    } else if expected == "String"@ && actual == "Int"@ {
        Some("String.fromInt"@)
    } else if expected == "Float"@ && actual == "Int"@ {
        Some("toFloat"@)
    } else if expected == "Int"@ && actual == "Float"@ {
        Some("round"@)
    } else if starts_with(expected, "Maybe "@) {
        if actual == expected.skip(6) {
            Some("Just"@)
        } else {
            None
        }
    } else if expected == "Array"@ && actual == "List"@ {
        Some("Array.fromList"@)
    } else if expected == "List"@ && actual == "Array"@ {
        Some("Array.toList"@)
    } else {
        None
    }
}

/// The conversion suggested for a value of type `actual` where `expected` is wanted.
pub fn suggest_type_conversion(expected: &str, actual: &str) -> (r: Option<String>)
    ensures
        r is Some <==> suggested_conversion(expected@, actual@) is Some,
        r matches Some(f) ==> suggested_conversion(expected@, actual@) == Some(f@),
{
    if str_equal(expected, "Int") && str_equal(actual, "String") {
        return Some("String.toInt".to_string());
    }
    if str_equal(expected, "String") && str_equal(actual, "Int") {
        return Some("String.fromInt".to_string());
    }
    if str_equal(expected, "Float") && str_equal(actual, "Int") {
        return Some("toFloat".to_string());
    }
    if str_equal(expected, "Int") && str_equal(actual, "Float") {
        return Some("round".to_string());
    }
    let e = chars_of(expected);
    let maybe = chars_of("Maybe ");
    proof {
        reveal_strlit("Maybe ");
    }
    if has_prefix(e.as_slice(), maybe.as_slice()) {
        let inner = text_of(e.as_slice(), 6, e.len());
        assert(inner@ =~= expected@.skip(6));
        if str_equal(actual, inner.as_str()) {
            return Some("Just".to_string());
        }
        return None;
    }
    if str_equal(expected, "Array") && str_equal(actual, "List") {
        return Some("Array.fromList".to_string());
    }
    if str_equal(expected, "List") && str_equal(actual, "Array") {
        return Some("Array.toList".to_string());
    }
    None
}

/// `s` without its trailing `c` characters (std's `trim_end_matches` with a char).
pub open spec fn trim_trailing(s: Seq<char>, c: char) -> Seq<char>
    decreases s.len(),
{
    if s.len() > 0 && s.last() == c {
        trim_trailing(s.drop_last(), c)
    } else {
        s
    }
}

fn trim_trailing_chars(s: &[char], c: char) -> (r: Vec<char>)
    ensures
        r@ == trim_trailing(s@, c),
{
    let mut n: usize = s.len();
    assert(s@.take(s@.len() as int) =~= s@);
    while n > 0 && s[n - 1] == c
        invariant
            0 <= n <= s@.len(),
            trim_trailing(s@, c) == trim_trailing(s@.take(n as int), c),
        decreases n,
    {
        assert(s@.take(n as int).drop_last() =~= s@.take(n - 1));
        n = n - 1;
    }
    slice_chars(s, 0, n)
}

/// The fix read from `... expected E but got A`: the expected and actual
/// types (trimmed, the actual type without trailing dots) and the conversion.
pub open spec fn expected_but_got(m: Seq<char>) -> Option<(Seq<char>, Seq<char>, Seq<char>)> {
    if contains_text(m, "expected"@) && contains_text(m, "but got"@) {
        let es = first_occurrence(m, "expected "@);
        let from = es + 9;
        let ee = first_occurrence(m.skip(from), " but got"@);
        let gs = first_occurrence(m, "but got "@);
        if es >= 0 && ee >= 0 && gs >= 0 {
            let expected = trim(m.subrange(from, from + ee));
            let actual = trim(trim_trailing(m.skip(gs + 8), '.'));
            match suggested_conversion(expected, actual) {
                Some(f) => Some((expected, actual, f)),
                None => None,
            }
        } else {
            None
        }
    } else {
        None
    }
}

/// The fix read from `cannot match A with E`.
pub open spec fn cannot_match_with(m: Seq<char>) -> Option<(Seq<char>, Seq<char>, Seq<char>)> {
    if contains_text(m, "cannot match"@) && contains_text(m, "with"@) {
        let ms = first_occurrence(m, "cannot match "@);
        let from = ms + 13;
        let w = first_occurrence(m.skip(from), " with "@);
        if ms >= 0 && w >= 0 {
            let actual = trim(m.subrange(from, from + w));
            let expected = trim(trim_trailing(m.skip(from + w + 6), '.'));
            match suggested_conversion(expected, actual) {
                Some(f) => Some((expected, actual, f)),
                None => None,
            }
        } else {
            None
        }
    } else {
        None
    }
}

/// The type fix a diagnostic suggests: expected type, actual type and the
/// conversion, from the first pattern that gives one.
pub open spec fn type_fix_of(m: Seq<char>) -> Option<(Seq<char>, Seq<char>, Seq<char>)> {
    match expected_but_got(m) {
        Some(x) => Some(x),
        None => cannot_match_with(m),
    }
}

fn expected_but_got_fix(message: &str) -> (r: Option<(String, String, String)>)
    ensures
        r is Some <==> expected_but_got(message@) is Some,
        r matches Some(t) ==> expected_but_got(message@) == Some((t.0@, t.1@, t.2@)),
{
    if !(str_contains(message, "expected") && str_contains(message, "but got")) {
        return None;
    }
    let m = chars_of(message);
    let exp = chars_of("expected ");
    let bg = chars_of(" but got");
    let got = chars_of("but got ");
    proof {
        reveal_strlit("expected ");
        reveal_strlit(" but got");
        reveal_strlit("but got ");
        lemma_first_occurrence_bounds(m@, exp@);
        lemma_first_occurrence_bounds(m@, got@);
    }
    let es = match find_text(m.as_slice(), exp.as_slice()) {
        Some(i) => i,
        None => return None,
    };
    let mlen: usize = m.len();
    assert(exp@.len() == 9);
    assert(es + 9 <= mlen);
    let from = es + 9;
    let ee = match find_from(m.as_slice(), bg.as_slice(), from) {
        Some(i) => i,
        None => return None,
    };
    let gs = match find_text(m.as_slice(), got.as_slice()) {
        Some(i) => i,
        None => return None,
    };
    let e_raw = slice_chars(m.as_slice(), from, from + ee);
    let expected = trim_chars(e_raw.as_slice());
    let a_raw = slice_chars(m.as_slice(), gs + 8, m.len());
    assert(a_raw@ =~= m@.skip(gs + 8));
    let a_dots = trim_trailing_chars(a_raw.as_slice(), '.');
    let actual = trim_chars(a_dots.as_slice());
    let es_text = string_from_chars(expected.as_slice());
    let ac_text = string_from_chars(actual.as_slice());
    match suggest_type_conversion(es_text.as_str(), ac_text.as_str()) {
        Some(f) => Some((es_text, ac_text, f)),
        None => None,
    }
}

fn cannot_match_fix(message: &str) -> (r: Option<(String, String, String)>)
    ensures
        r is Some <==> cannot_match_with(message@) is Some,
        r matches Some(t) ==> cannot_match_with(message@) == Some((t.0@, t.1@, t.2@)),
{
    if !(str_contains(message, "cannot match") && str_contains(message, "with")) {
        return None;
    }
    let m = chars_of(message);
    let cm = chars_of("cannot match ");
    let with = chars_of(" with ");
    proof {
        reveal_strlit("cannot match ");
        reveal_strlit(" with ");
        lemma_first_occurrence_bounds(m@, cm@);
    }
    let ms = match find_text(m.as_slice(), cm.as_slice()) {
        Some(i) => i,
        None => return None,
    };
    let mlen: usize = m.len();
    assert(cm@.len() == 13);
    assert(ms + 13 <= mlen);
    let from = ms + 13;
    let w = match find_from(m.as_slice(), with.as_slice(), from) {
        Some(i) => i,
        None => return None,
    };
    let a_raw = slice_chars(m.as_slice(), from, from + w);
    let actual = trim_chars(a_raw.as_slice());
    let e_raw = slice_chars(m.as_slice(), from + w + 6, m.len());
    assert(e_raw@ =~= m@.skip(from + w + 6));
    let e_dots = trim_trailing_chars(e_raw.as_slice(), '.');
    let expected = trim_chars(e_dots.as_slice());
    let es_text = string_from_chars(expected.as_slice());
    let ac_text = string_from_chars(actual.as_slice());
    match suggest_type_conversion(es_text.as_str(), ac_text.as_str()) {
        Some(f) => Some((es_text, ac_text, f)),
        None => None,
    }
}

/// The type fix a diagnostic's message suggests (see `type_fix_of`).
pub fn extract_type_mismatch_fix(message: &str) -> (r: Option<(String, String, String)>)
    ensures
        r is Some <==> type_fix_of(message@) is Some,
        r matches Some(t) ==> type_fix_of(message@) == Some((t.0@, t.1@, t.2@)),
{
    match expected_but_got_fix(message) {
        Some(t) => Some(t),
        None => cannot_match_fix(message),
    }
}

/// Two ranges share a position.
pub open spec fn overlaps(a: Range, b: Range) -> bool {
    position_le(a.start, b.end) && position_le(b.start, a.end)
}

/// Whether two ranges overlap.
pub fn ranges_overlap(range1: &Range, range2: &Range) -> (r: bool)
    ensures
        r == overlaps(*range1, *range2),
{
    crate::protocol::position_before_or_at(range1.start, range2.end)
        && crate::protocol::position_before_or_at(range2.start, range1.end)
}

/// A position lies within a range, both ends included.
pub open spec fn within(p: Position, r: Range) -> bool {
    position_le(r.start, p) && position_le(p, r.end)
}

/// Whether a position lies within a range.
pub fn position_in_range(position: &Position, range: &Range) -> (r: bool)
    ensures
        r == within(*position, *range),
{
    (position.line > range.start.line || (position.line == range.start.line && position.character
        >= range.start.character)) && (position.line < range.end.line || (position.line
        == range.end.line && position.character <= range.end.character))
}

/// The largest of the rows, and 0.
pub open spec fn max_row(rows: Seq<usize>) -> usize
    decreases rows.len(),
{
    if rows.len() == 0 {
        0
    } else {
        let m = max_row(rows.drop_last());
        if rows.last() > m {
            rows.last()
        } else {
            m
        }
    }
}

/// Where a new import goes: at the start of the line where the last import
/// ends (the first line without imports).  `import_end_rows` are the rows at
/// which the document's import clauses end.
pub fn find_import_insertion_position(import_end_rows: &Vec<usize>) -> (r: Position)
    ensures
        r.line == max_row(import_end_rows@) as u32,
        r.character == 0,
{
    let mut last: usize = 0;
    let mut i: usize = 0;
    assert(import_end_rows@.take(0) =~= Seq::<usize>::empty());
    while i < import_end_rows.len()
        invariant
            0 <= i <= import_end_rows@.len(),
            last == max_row(import_end_rows@.take(i as int)),
        decreases import_end_rows.len() - i,
    {
        assert(import_end_rows@.take(i + 1).drop_last() =~= import_end_rows@.take(i as int));
        if import_end_rows[i] > last {
            last = import_end_rows[i];
        }
        i = i + 1;
    }
    assert(import_end_rows@.take(import_end_rows@.len() as int) =~= import_end_rows@);
    Position { line: last as u32, character: 0 }
}

/// Where the first import clause that overlaps the range is, or -1.
pub open spec fn first_overlapping(imports: Seq<Range>, range: Range) -> int
    decreases imports.len(),
{
    if imports.len() == 0 {
        -1
    } else if first_overlapping(imports.drop_last(), range) >= 0 {
        first_overlapping(imports.drop_last(), range)
    } else if overlaps(imports.last(), range) {
        imports.len() - 1
    } else {
        -1
    }
}

proof fn lemma_first_overlapping_extends(imports: Seq<Range>, range: Range, n: int)
    requires
        0 < n <= imports.len(),
        first_overlapping(imports.take(n), range) >= 0,
    ensures
        first_overlapping(imports, range) == first_overlapping(imports.take(n), range),
    decreases imports.len() - n,
{
    if n < imports.len() {
        assert(imports.take(n + 1).drop_last() =~= imports.take(n));
        lemma_first_overlapping_extends(imports, range, n + 1);
    } else {
        assert(imports.take(n) =~= imports);
    }
}

/// The range to delete for the import clause at a diagnostic's range: from
/// the first import clause that overlaps it to the start of the next line.
/// `imports` are the ranges of the document's import clauses, in order.
pub fn find_import_at_range(imports: &Vec<Range>, range: &Range) -> (r: Option<Range>)
    requires
        forall|i: int| 0 <= i < imports@.len() ==> (#[trigger] imports@[i]).end.line < u32::MAX,
    ensures
        first_overlapping(imports@, *range) == -1 <==> r is None,
        r matches Some(x) ==> ({
            let found = imports@[first_overlapping(imports@, *range)];
            x == Range { start: found.start, end: Position { line: (found.end.line + 1) as u32, character: 0 } }
        }),
{
    let mut i: usize = 0;
    assert(imports@.take(0) =~= Seq::<Range>::empty());
    while i < imports.len()
        invariant
            0 <= i <= imports@.len(),
            forall|k: int| 0 <= k < imports@.len() ==> (#[trigger] imports@[k]).end.line < u32::MAX,
            first_overlapping(imports@.take(i as int), *range) == -1,
        decreases imports.len() - i,
    {
        assert(imports@.take(i + 1).drop_last() =~= imports@.take(i as int));
        let node = imports[i];
        if ranges_overlap(&node, range) {
            proof {
                lemma_first_overlapping_extends(imports@, *range, i + 1);
            }
            return Some(
                Range { start: node.start, end: Position { line: node.end.line + 1, character: 0 } },
            );
        }
        i = i + 1;
    }
    assert(imports@.take(imports@.len() as int) =~= imports@);
    None
}

/// A new import goes at the start of the line after the imports: its row is
/// no smaller than the row where any import ends, and is one of those rows
/// (row 0 when there are no imports).
pub proof fn law_import_goes_below_imports(rows: Seq<usize>)
    ensures
        forall|i: int| 0 <= i < rows.len() ==> #[trigger] rows[i] <= max_row(rows),
        rows.len() == 0 ==> max_row(rows) == 0,
        rows.len() > 0 ==> exists|i: int| 0 <= i < rows.len() && #[trigger] rows[i] == max_row(rows),
    decreases rows.len(),
{
    if rows.len() > 0 {
        let t = rows.drop_last();
        law_import_goes_below_imports(t);
        assert forall|i: int| 0 <= i < t.len() implies t[i] == rows[i] by {}
        if max_row(rows) != rows.last() && t.len() > 0 {
            let i = choose|i: int| 0 <= i < t.len() && #[trigger] t[i] == max_row(t);
            assert(rows[i] == max_row(rows));
        }
        if max_row(rows) == rows.last() {
            assert(rows[rows.len() - 1] == max_row(rows));
        }
    }
}

/// The import clause removed for an unused-import diagnostic is the first
/// one that overlaps the diagnostic's range (the two share a position);
/// none is removed when no clause overlaps it.
pub proof fn law_first_overlapping_import(imports: Seq<Range>, range: Range)
    ensures
        -1 <= first_overlapping(imports, range) < imports.len(),
        first_overlapping(imports, range) >= 0 ==> {
            let x = imports[first_overlapping(imports, range)];
            position_le(x.start, range.end) && position_le(range.start, x.end)
        },
        forall|k: int|
            0 <= k < imports.len() && (k < first_overlapping(imports, range) || first_overlapping(imports, range) == -1)
                ==> !(position_le((#[trigger] imports[k]).start, range.end) && position_le(range.start, imports[k].end)),
    decreases imports.len(),
{
    if imports.len() > 0 {
        let t = imports.drop_last();
        law_first_overlapping_import(t, range);
        assert forall|k: int| 0 <= k < t.len() implies t[k] == imports[k] by {}
    }
}

/// The function a signature action is for is the first one whose range
/// holds the position, both ends included; there is none when no function
/// holds it.
pub proof fn law_function_under_position(functions: Seq<FunctionDefinition>, p: Position)
    ensures
        -1 <= function_at(functions, p) < functions.len(),
        function_at(functions, p) >= 0 ==> {
            let f = functions[function_at(functions, p)];
            position_le(f.range.start, p) && position_le(p, f.range.end)
        },
        forall|k: int|
            0 <= k < functions.len() && (k < function_at(functions, p) || function_at(functions, p) == -1)
                ==> !(position_le((#[trigger] functions[k]).range.start, p) && position_le(p, functions[k].range.end)),
    decreases functions.len(),
{
    if functions.len() > 0 {
        let t = functions.drop_last();
        law_function_under_position(t, p);
        assert forall|k: int| 0 <= k < t.len() implies t[k] == functions[k] by {}
    }
}

/// A type annotation's name and the row where the name ends.
#[derive(Debug, Clone)]
pub struct AnnotationName {
    pub name: String,
    pub end_row: usize,
}

/// A function definition's name and range.
#[derive(Debug, Clone)]
pub struct FunctionDefinition {
    pub name: String,
    pub range: Range,
}

/// A function has a type signature when an annotation of its name ends no
/// more than a line above the function's start.
pub open spec fn has_signature(annotations: Seq<AnnotationName>, name: Seq<char>, function_range: Range) -> bool {
    exists|i: int|
        0 <= i < annotations.len() && (#[trigger] annotations[i]).name@ == name && (annotations[i].end_row as u32)
            + 1 >= function_range.start.line
}

/// Whether the function already has a type signature (see `has_signature`).
pub fn check_function_has_type_signature(
    annotations: &Vec<AnnotationName>,
    function_name: &str,
    function_range: &Range,
) -> (r: bool)
    requires
        forall|i: int| 0 <= i < annotations@.len() ==> ((#[trigger] annotations@[i]).end_row as u32) < u32::MAX,
    ensures
        r == has_signature(annotations@, function_name@, *function_range),
{
    let mut i: usize = 0;
    while i < annotations.len()
        invariant
            0 <= i <= annotations@.len(),
            forall|k: int| 0 <= k < annotations@.len() ==> ((#[trigger] annotations@[k]).end_row as u32) < u32::MAX,
            forall|k: int|
                0 <= k < i ==> !((#[trigger] annotations@[k]).name@ == function_name@ && (annotations@[k].end_row as u32) + 1
                    >= function_range.start.line),
        decreases annotations.len() - i,
    {
        let a = &annotations[i];
        if str_equal(a.name.as_str(), function_name) {
            let line = a.end_row as u32;
            if line + 1 >= function_range.start.line {
                return true;
            }
        }
        i = i + 1;
    }
    false
}

/// Where the first function whose range holds the position is, or -1.
pub open spec fn function_at(functions: Seq<FunctionDefinition>, p: Position) -> int
    decreases functions.len(),
{
    if functions.len() == 0 {
        -1
    } else if function_at(functions.drop_last(), p) >= 0 {
        function_at(functions.drop_last(), p)
    } else if within(p, functions.last().range) {
        functions.len() - 1
    } else {
        -1
    }
}

proof fn lemma_function_at_extends(functions: Seq<FunctionDefinition>, p: Position, n: int)
    requires
        0 < n <= functions.len(),
        function_at(functions.take(n), p) >= 0,
    ensures
        function_at(functions, p) == function_at(functions.take(n), p),
    decreases functions.len() - n,
{
    if n < functions.len() {
        assert(functions.take(n + 1).drop_last() =~= functions.take(n));
        lemma_function_at_extends(functions, p, n + 1);
    } else {
        assert(functions.take(n) =~= functions);
    }
}

/// The function under the start of the range: its name, its range, and
/// whether it has a type signature.
pub fn find_function_at_position(
    functions: &Vec<FunctionDefinition>,
    annotations: &Vec<AnnotationName>,
    range: &Range,
) -> (r: Option<(String, Range, bool)>)
    requires
        forall|i: int| 0 <= i < annotations@.len() ==> ((#[trigger] annotations@[i]).end_row as u32) < u32::MAX,
    ensures
        function_at(functions@, range.start) == -1 <==> r is None,
        r matches Some(t) ==> ({
            let f = functions@[function_at(functions@, range.start)];
            t.0@ == f.name@ && t.1 == f.range && t.2 == has_signature(annotations@, f.name@, f.range)
        }),
{
    let mut i: usize = 0;
    assert(functions@.take(0) =~= Seq::<FunctionDefinition>::empty());
    while i < functions.len()
        invariant
            0 <= i <= functions@.len(),
            forall|k: int| 0 <= k < annotations@.len() ==> ((#[trigger] annotations@[k]).end_row as u32) < u32::MAX,
            function_at(functions@.take(i as int), range.start) == -1,
        decreases functions.len() - i,
    {
        assert(functions@.take(i + 1).drop_last() =~= functions@.take(i as int));
        let f = &functions[i];
        if position_in_range(&range.start, &f.range) {
            proof {
                lemma_function_at_extends(functions@, range.start, i + 1);
            }
            let has = check_function_has_type_signature(annotations, f.name.as_str(), &f.range);
            return Some((f.name.clone(), f.range, has));
        }
        i = i + 1;
    }
    assert(functions@.take(functions@.len() as int) =~= functions@);
    None
}

/// The kind of a code action.
#[derive(Debug, Clone, Copy, PartialEq, Eq, Structural)]
pub enum CodeActionKind {
    QuickFix,
    SourceOrganizeImports,
    RefactorRewrite,
}

/// The protocol's name of a kind.
pub open spec fn kind_name(k: CodeActionKind) -> Seq<char> {
    match k {
        CodeActionKind::QuickFix => "quickfix"@,
        CodeActionKind::SourceOrganizeImports => "source.organizeImports"@,
        CodeActionKind::RefactorRewrite => "refactor.rewrite"@,
    }
}

impl CodeActionKind {
    /// The protocol's name of the kind.
    pub fn as_str(&self) -> (r: &'static str)
        ensures
            r@ == kind_name(*self),
    {
        match self {
            CodeActionKind::QuickFix => "quickfix",
            CodeActionKind::SourceOrganizeImports => "source.organizeImports",
            CodeActionKind::RefactorRewrite => "refactor.rewrite",
        }
    }
}

/// A code action offered to the editor.
#[derive(Debug, Clone)]
pub struct CodeAction {
    pub title: String,
    pub kind: Option<CodeActionKind>,
    pub diagnostics: Option<Vec<Diagnostic>>,
    pub is_preferred: Option<bool>,
    pub edit: Option<WorkspaceEdit>,
}

/// A code action by the texts of its fields; its edit as the files, each
/// with its edits' ranges and texts.
pub struct ActionModel {
    pub title: Seq<char>,
    pub kind: Option<CodeActionKind>,
    pub diagnostics: Option<Seq<DiagnosticModel>>,
    pub is_preferred: Option<bool>,
    pub edit: Option<Seq<(Seq<char>, Seq<(Range, Seq<char>)>)>>,
}

pub open spec fn edits_model(v: Seq<TextEdit>) -> Seq<(Range, Seq<char>)> {
    v.map_values(|e: TextEdit| (e.range, e.new_text@))
}

pub open spec fn workspace_model(w: WorkspaceEdit) -> Seq<(Seq<char>, Seq<(Range, Seq<char>)>)> {
    match w.changes {
        Some(c) => c@.map_values(|f: FileEdits| (f.uri@, edits_model(f.edits@))),
        None => Seq::empty(),
    }
}

pub open spec fn action_model(a: CodeAction) -> ActionModel {
    ActionModel {
        title: a.title@,
        kind: a.kind,
        diagnostics: match a.diagnostics {
            Some(d) => Some(crate::diagnostics::diagnostic_models(d@)),
            None => None,
        },
        is_preferred: a.is_preferred,
        edit: match a.edit {
            Some(w) => Some(workspace_model(w)),
            None => None,
        },
    }
}

pub open spec fn action_models(v: Seq<CodeAction>) -> Seq<ActionModel> {
    v.map_values(|a: CodeAction| action_model(a))
}

/// One edit to one document.
pub open spec fn single_edit(uri: Seq<char>, range: Range, text: Seq<char>) -> Seq<(Seq<char>, Seq<(Range, Seq<char>)>)> {
    seq![(uri, seq![(range, text)])]
}

/// The module a symbol's import names: its container, or `Unknown`.
pub open spec fn import_module_of(s: Symbol) -> Seq<char> {
    match s.container {
        Some(c) => c@,
        None => "Unknown"@,
    }
}

/// The quick fix for a name the module cannot see: import it, exposed, from
/// the module of the first indexed symbol of that name, on a line of its own
/// at the import position.  None when the message names no symbol, when no
/// index is at hand (`matching` is `None`), or when no symbol has that name.
pub open spec fn missing_import_model(
    uri: Seq<char>,
    d: DiagnosticModel,
    position: Position,
    matching: Option<Seq<Symbol>>,
) -> Option<ActionModel> {
    match (undefined_symbol_of(d.message), matching) {
        (Some(name), Some(symbols)) => if symbols.len() == 0 {
            None
        } else {
            let module = import_module_of(symbols[0]);
            Some(
                ActionModel {
                    title: "Import "@ + name + " from "@ + module,
                    kind: Some(CodeActionKind::QuickFix),
                    diagnostics: Some(seq![d]),
                    is_preferred: Some(true),
                    edit: Some(
                        single_edit(
                            uri,
                            Range { start: position, end: position },
                            "import "@ + module + " exposing ("@ + name + ")\n"@,
                        ),
                    ),
                },
            )
        },
        _ => None,
    }
}

fn one_edit(uri: &str, range: Range, text: String) -> (r: WorkspaceEdit)
    ensures
        workspace_model(r) == single_edit(uri@, range, text@),
{
    let mut edits: Vec<TextEdit> = Vec::new();
    edits.push(TextEdit { range, new_text: text });
    let mut files: Vec<FileEdits> = Vec::new();
    files.push(FileEdits { uri: uri.to_string(), edits });
    let r = WorkspaceEdit { changes: Some(files) };
    assert(edits_model(r.changes->0@[0].edits@) =~= seq![(range, text@)]);
    assert(workspace_model(r) =~= single_edit(uri@, range, text@));
    r
}

fn one_diagnostic(d: &Diagnostic) -> (r: Vec<Diagnostic>)
    ensures
        crate::diagnostics::diagnostic_models(r@) == seq![diagnostic_model(*d)],
{
    let mut v: Vec<Diagnostic> = Vec::new();
    v.push(copy_diagnostic(d));
    assert(crate::diagnostics::diagnostic_models(v@) =~= seq![diagnostic_model(*d)]);
    v
}

fn join3(a: &str, b: &str, c: &str) -> (r: String)
    ensures
        r@ == a@ + b@ + c@,
{
    let mut s = a.to_string();
    s.append(b);
    s.append(c);
    s
}

/// The quick fix that imports a name the module cannot see (see
/// `missing_import_model`).
pub fn generate_missing_import_action(
    uri: &str,
    diagnostic: &Diagnostic,
    import_position: Position,
    matching_symbols: &Option<Vec<Symbol>>,
) -> (r: Option<CodeAction>)
    ensures
        match missing_import_model(
            uri@,
            diagnostic_model(*diagnostic),
            import_position,
            match matching_symbols {
                Some(v) => Some(v@),
                None => None,
            },
        ) {
            Some(m) => r matches Some(a) && action_model(a) == m,
            None => r is None,
        },
{
    let name = match extract_undefined_symbol(diagnostic.message.as_str()) {
        Some(n) => n,
        None => return None,
    };
    let symbols = match matching_symbols {
        Some(v) => v,
        None => return None,
    };
    if symbols.len() == 0 {
        return None;
    }
    let module = match &symbols[0].container {
        Some(c) => c.clone(),
        None => "Unknown".to_string(),
    };
    let title = join3(join3("Import ", name.as_str(), " from ").as_str(), module.as_str(), "");
    let text = join3(
        join3("import ", module.as_str(), " exposing (").as_str(),
        name.as_str(),
        ")\n",
    );
    let a = CodeAction {
        title,
        kind: Some(CodeActionKind::QuickFix),
        diagnostics: Some(one_diagnostic(diagnostic)),
        is_preferred: Some(true),
        edit: Some(one_edit(uri, Range { start: import_position, end: import_position }, text)),
    };
    proof {
        reveal_strlit("");
        assert(a.title@ =~= "Import "@ + name@ + " from "@ + module@);
    }
    Some(a)
}

/// The quick fix that converts a value to the type the diagnostic expects:
/// the conversion replaces the diagnostic's range.
pub open spec fn type_mismatch_model(uri: Seq<char>, d: DiagnosticModel) -> Option<ActionModel> {
    match type_fix_of(d.message) {
        Some((expected, actual, fix)) => Some(
            ActionModel {
                title: "Convert "@ + actual + " to "@ + expected,
                kind: Some(CodeActionKind::QuickFix),
                diagnostics: Some(seq![d]),
                is_preferred: Some(false),
                edit: Some(single_edit(uri, d.range, fix)),
            },
        ),
        None => None,
    }
}

/// The quick fix for a type mismatch (see `type_mismatch_model`).
pub fn generate_type_mismatch_action(uri: &str, diagnostic: &Diagnostic) -> (r: Option<CodeAction>)
    ensures
        match type_mismatch_model(uri@, diagnostic_model(*diagnostic)) {
            Some(m) => r matches Some(a) && action_model(a) == m,
            None => r is None,
        },
{
    let (expected, actual, fix) = match extract_type_mismatch_fix(diagnostic.message.as_str()) {
        Some(t) => t,
        None => return None,
    };
    let title = join3(join3("Convert ", actual.as_str(), " to ").as_str(), expected.as_str(), "");
    proof {
        reveal_strlit("");
        assert(title@ =~= "Convert "@ + actual@ + " to "@ + expected@);
    }
    Some(
        CodeAction {
            title,
            kind: Some(CodeActionKind::QuickFix),
            diagnostics: Some(one_diagnostic(diagnostic)),
            is_preferred: Some(false),
            edit: Some(one_edit(uri, diagnostic.range, fix)),
        },
    )
}

/// The action that deletes an unused import: the import clause at the
/// diagnostic's range, with its line end.
pub open spec fn unused_import_model(uri: Seq<char>, d: DiagnosticModel, imports: Seq<Range>) -> Option<ActionModel> {
    let i = first_overlapping(imports, d.range);
    if i < 0 {
        None
    } else {
        let found = imports[i];
        Some(
            ActionModel {
                title: "Remove unused import"@,
                kind: Some(CodeActionKind::SourceOrganizeImports),
                diagnostics: Some(seq![d]),
                is_preferred: Some(true),
                edit: Some(
                    single_edit(
                        uri,
                        Range {
                            start: found.start,
                            end: Position { line: (found.end.line + 1) as u32, character: 0 },
                        },
                        Seq::empty(),
                    ),
                ),
            },
        )
    }
}

/// The action that deletes an unused import (see `unused_import_model`).
pub fn generate_remove_unused_import_action(uri: &str, diagnostic: &Diagnostic, imports: &Vec<Range>) -> (r: Option<CodeAction>)
    requires
        forall|i: int| 0 <= i < imports@.len() ==> (#[trigger] imports@[i]).end.line < u32::MAX,
    ensures
        match unused_import_model(uri@, diagnostic_model(*diagnostic), imports@) {
            Some(m) => r matches Some(a) && action_model(a) == m,
            None => r is None,
        },
{
    let range = match find_import_at_range(imports, &diagnostic.range) {
        Some(x) => x,
        None => return None,
    };
    proof {
        reveal_strlit("Remove unused import");
    }
    let empty = String::new();
    assert(empty@ =~= Seq::<char>::empty());
    Some(
        CodeAction {
            title: "Remove unused import".to_string(),
            kind: Some(CodeActionKind::SourceOrganizeImports),
            diagnostics: Some(one_diagnostic(diagnostic)),
            is_preferred: Some(true),
            edit: Some(one_edit(uri, range, empty)),
        },
    )
}

/// The refactoring that adds a placeholder type signature above the
/// function under the cursor, when it has none.
pub open spec fn add_signature_model(
    uri: Seq<char>,
    functions: Seq<FunctionDefinition>,
    annotations: Seq<AnnotationName>,
    range: Range,
) -> Option<ActionModel> {
    let i = function_at(functions, range.start);
    if i < 0 {
        None
    } else {
        let f = functions[i];
        if has_signature(annotations, f.name@, f.range) {
            None
        } else {
            Some(
                ActionModel {
                    title: "Add type signature for "@ + f.name@,
                    kind: Some(CodeActionKind::RefactorRewrite),
                    diagnostics: None,
                    is_preferred: Some(false),
                    edit: Some(
                        single_edit(
                            uri,
                            Range { start: f.range.start, end: f.range.start },
                            f.name@ + " : ()\n"@,
                        ),
                    ),
                },
            )
        }
    }
}

/// The refactoring that adds a type signature (see `add_signature_model`).
pub fn generate_add_type_signature_action(
    uri: &str,
    functions: &Vec<FunctionDefinition>,
    annotations: &Vec<AnnotationName>,
    range: &Range,
) -> (r: Option<CodeAction>)
    requires
        forall|i: int| 0 <= i < annotations@.len() ==> ((#[trigger] annotations@[i]).end_row as u32) < u32::MAX,
    ensures
        match add_signature_model(uri@, functions@, annotations@, *range) {
            Some(m) => r matches Some(a) && action_model(a) == m,
            None => r is None,
        },
{
    let (name, frange, has_sig) = match find_function_at_position(functions, annotations, range) {
        Some(t) => t,
        None => return None,
    };
    if has_sig {
        return None;
    }
    let title = join3("Add type signature for ", name.as_str(), "");
    let text = join3(name.as_str(), " : ()\n", "");
    proof {
        reveal_strlit("");
        assert(title@ =~= "Add type signature for "@ + name@);
        assert(text@ =~= name@ + " : ()\n"@);
    }
    Some(
        CodeAction {
            title,
            kind: Some(CodeActionKind::RefactorRewrite),
            diagnostics: None,
            is_preferred: Some(false),
            edit: Some(one_edit(uri, Range { start: frange.start, end: frange.start }, text)),
        },
    )
}

pub open spec fn model_if(o: Option<ActionModel>) -> Seq<ActionModel> {
    match o {
        Some(m) => seq![m],
        None => Seq::empty(),
    }
}

pub open spec fn lookup_view(o: Option<Vec<Symbol>>) -> Option<Seq<Symbol>> {
    match o {
        Some(v) => Some(v@),
        None => None,
    }
}

/// The actions for one diagnostic: an import for a missing name, a
/// conversion for a type mismatch, a deletion for an unused import, each
/// when its message calls for it and it can be made.
pub open spec fn actions_for_diagnostic(
    uri: Seq<char>,
    d: DiagnosticModel,
    matching: Option<Seq<Symbol>>,
    position: Position,
    imports: Seq<Range>,
) -> Seq<ActionModel> {
    (if missing_import_message(d.message) {
        model_if(missing_import_model(uri, d, position, matching))
    } else {
        Seq::empty()
    }) + (if type_mismatch_message(d.message) {
        model_if(type_mismatch_model(uri, d))
    } else {
        Seq::empty()
    }) + (if unused_import_message(d.message) {
        model_if(unused_import_model(uri, d, imports))
    } else {
        Seq::empty()
    })
}

/// The actions for the diagnostics, one after another.
pub open spec fn diagnostic_actions_model(
    uri: Seq<char>,
    ds: Seq<DiagnosticModel>,
    lookups: Seq<Option<Vec<Symbol>>>,
    position: Position,
    imports: Seq<Range>,
) -> Seq<ActionModel>
    decreases ds.len(),
{
    if ds.len() == 0 {
        Seq::empty()
    } else {
        diagnostic_actions_model(uri, ds.drop_last(), lookups.drop_last(), position, imports)
            + actions_for_diagnostic(uri, ds.last(), lookup_view(lookups.last()), position, imports)
    }
}

proof fn lemma_action_models_push(v: Seq<CodeAction>, a: CodeAction)
    ensures
        action_models(v.push(a)) =~= action_models(v).push(action_model(a)),
{
    assert forall|k: int| 0 <= k < v.len() + 1 implies #[trigger] action_models(v.push(a))[k]
        == action_models(v).push(action_model(a))[k] by {
        if k < v.len() {
            assert(v.push(a)[k] == v[k]);
        }
    }
}

/// The actions for the compiler's diagnostics.  `matching_symbols[i]` holds
/// the indexed symbols named by the name the `i`-th diagnostic says is
/// missing (`None` without an index); `import_position` is where a new
/// import goes; `imports` are the ranges of the import clauses.
pub fn generate_diagnostic_actions(
    uri: &str,
    diagnostics: &Vec<Diagnostic>,
    matching_symbols: &Vec<Option<Vec<Symbol>>>,
    import_position: Position,
    imports: &Vec<Range>,
) -> (r: Vec<CodeAction>)
    requires
        matching_symbols@.len() == diagnostics@.len(),
        forall|i: int| 0 <= i < imports@.len() ==> (#[trigger] imports@[i]).end.line < u32::MAX,
    ensures
        action_models(r@) == diagnostic_actions_model(
            uri@,
            crate::diagnostics::diagnostic_models(diagnostics@),
            matching_symbols@,
            import_position,
            imports@,
        ),
{
    let ghost ds = crate::diagnostics::diagnostic_models(diagnostics@);
    let mut actions: Vec<CodeAction> = Vec::new();
    let mut i: usize = 0;
    assert(ds.take(0) =~= Seq::<DiagnosticModel>::empty());
    while i < diagnostics.len()
        invariant
            0 <= i <= diagnostics@.len(),
            matching_symbols@.len() == diagnostics@.len(),
            ds == crate::diagnostics::diagnostic_models(diagnostics@),
            forall|k: int| 0 <= k < imports@.len() ==> (#[trigger] imports@[k]).end.line < u32::MAX,
            action_models(actions@) == diagnostic_actions_model(
                uri@,
                ds.take(i as int),
                matching_symbols@.take(i as int),
                import_position,
                imports@,
            ),
        decreases diagnostics.len() - i,
    {
        let d = &diagnostics[i];
        let ghost before = action_models(actions@);
        assert(ds.take(i + 1).drop_last() =~= ds.take(i as int));
        assert(matching_symbols@.take(i + 1).drop_last() =~= matching_symbols@.take(i as int));
        assert(ds.take(i + 1).last() == diagnostic_model(*d));
        assert(matching_symbols@.take(i + 1).last() == matching_symbols@[i as int]);
        let ghost m1 = if missing_import_message(d.message@) {
            model_if(missing_import_model(uri@, diagnostic_model(*d), import_position, lookup_view(matching_symbols@[i as int])))
        } else {
            Seq::empty()
        };
        let ghost m2 = if type_mismatch_message(d.message@) {
            model_if(type_mismatch_model(uri@, diagnostic_model(*d)))
        } else {
            Seq::empty()
        };
        let ghost m3 = if unused_import_message(d.message@) {
            model_if(unused_import_model(uri@, diagnostic_model(*d), imports@))
        } else {
            Seq::empty()
        };
        if is_missing_import_error(d.message.as_str()) {
            if let Some(a) = generate_missing_import_action(uri, d, import_position, &matching_symbols[i]) {
                proof {
                    lemma_action_models_push(actions@, a);
                }
                actions.push(a);
            }
        }
        assert(action_models(actions@) =~= before + m1);
        if is_type_mismatch_error(d.message.as_str()) {
            if let Some(a) = generate_type_mismatch_action(uri, d) {
                proof {
                    lemma_action_models_push(actions@, a);
                }
                actions.push(a);
            }
        }
        assert(action_models(actions@) =~= before + m1 + m2);
        if is_unused_import_warning(d.message.as_str()) {
            if let Some(a) = generate_remove_unused_import_action(uri, d, imports) {
                proof {
                    lemma_action_models_push(actions@, a);
                }
                actions.push(a);
            }
        }
        assert(action_models(actions@) =~= before + m1 + m2 + m3);
        assert(before + m1 + m2 + m3 =~= before + (m1 + m2 + m3));
        i = i + 1;
    }
    assert(ds.take(diagnostics@.len() as int) =~= ds);
    assert(matching_symbols@.take(diagnostics@.len() as int) =~= matching_symbols@);
    actions
}

/// A kind is requested: its name starts with one of the requested names.
pub open spec fn requested_kind(kind: Option<CodeActionKind>, only: Seq<String>) -> bool {
    match kind {
        Some(k) => exists|j: int| 0 <= j < only.len() && starts_with(kind_name(k), (#[trigger] only[j])@),
        None => false,
    }
}

/// An action is of a requested kind.
pub open spec fn of_requested_kind(m: ActionModel, only: Seq<String>) -> bool {
    requested_kind(m.kind, only)
}

/// The actions of a requested kind, in order.
pub open spec fn requested(v: Seq<ActionModel>, only: Seq<String>) -> Seq<ActionModel>
    decreases v.len(),
{
    if v.len() == 0 {
        Seq::empty()
    } else if of_requested_kind(v.last(), only) {
        requested(v.drop_last(), only).push(v.last())
    } else {
        requested(v.drop_last(), only)
    }
}

/// Filtering by requested kinds keeps only actions of those kinds, and
/// keeps every such action, in order: the kept actions are exactly those of
/// a requested kind.
pub proof fn law_requested_actions_only(v: Seq<ActionModel>, only: Seq<String>)
    ensures
        forall|k: int| 0 <= k < requested(v, only).len() ==> of_requested_kind(#[trigger] requested(v, only)[k], only),
        requested(v, only) == v.filter(|m: ActionModel| of_requested_kind(m, only)),
    decreases v.len(),
{
    let pred = |m: ActionModel| of_requested_kind(m, only);
    if v.len() > 0 {
        law_requested_actions_only(v.drop_last(), only);
        let r = requested(v, only);
        let q = requested(v.drop_last(), only);
        assert forall|k: int| 0 <= k < r.len() implies of_requested_kind(#[trigger] r[k], only) by {
            if k < q.len() {
                assert(r[k] == q[k]);
            }
        }
        reveal_with_fuel(Seq::filter, 1);
    } else {
        assert(v.filter(pred) =~= Seq::<ActionModel>::empty());
    }
}

/// The quick fix for a missing import: when the message names a symbol and
/// the index has symbols of that name, it imports the name, exposed, from
/// the module of the first of them, inserting `import M exposing (name)` and
/// a line break at the import position; a quick fix, preferred, for the
/// diagnostic; without such symbols there is none.
pub proof fn law_missing_import_action(
    uri: Seq<char>,
    d: DiagnosticModel,
    position: Position,
    matching: Option<Seq<Symbol>>,
)
    ensures
        missing_import_model(uri, d, position, matching) is None <==> (undefined_symbol_of(d.message) is None
            || matching is None || matching->0.len() == 0),
        missing_import_model(uri, d, position, matching) matches Some(a) ==> ({
            let name = undefined_symbol_of(d.message)->0;
            let module = import_module_of(matching->0[0]);
            &&& a.kind == Some(CodeActionKind::QuickFix)
            &&& a.is_preferred == Some(true)
            &&& a.title == "Import "@ + name + " from "@ + module
            &&& a.diagnostics == Some(seq![d])
            &&& a.edit == Some(single_edit(uri, Range { start: position, end: position }, "import "@ + module
                + " exposing ("@ + name + ")\n"@))
        }),
{
}

fn is_requested(kind: Option<CodeActionKind>, only: &Vec<String>) -> (r: bool)
    ensures
        r == requested_kind(kind, only@),
{
    let k = match kind {
        Some(k) => k,
        None => return false,
    };
    let name = chars_of(k.as_str());
    let mut j: usize = 0;
    while j < only.len()
        invariant
            0 <= j <= only@.len(),
            name@ == kind_name(k),
            kind == Some(k),
            forall|i: int| 0 <= i < j ==> !starts_with(kind_name(k), (#[trigger] only@[i])@),
        decreases only.len() - j,
    {
        let req = chars_of(only[j].as_str());
        if has_prefix(name.as_slice(), req.as_slice()) {
            assert(starts_with(kind_name(k), only@[j as int]@));
            return true;
        }
        j = j + 1;
    }
    false
}

/// Keeps the actions of the requested kinds, when kinds are requested.
pub fn filter_actions(actions: Vec<CodeAction>, only: &Option<Vec<String>>) -> (r: Vec<CodeAction>)
    ensures
        only is None ==> r@ == actions@,
        only matches Some(o) ==> action_models(r@) == requested(action_models(actions@), o@),
{
    let o = match only {
        Some(o) => o,
        None => return actions,
    };
    let ghost all = actions@;
    let n = actions.len();
    let mut rest = actions;
    let mut kept: Vec<CodeAction> = Vec::new();
    let mut i: usize = 0;
    assert(action_models(all).take(0) =~= Seq::<ActionModel>::empty());
    while rest.len() > 0
        invariant
            all.len() == n,
            0 <= i <= n,
            rest.len() == n - i,
            rest@ == all.skip(i as int),
            action_models(kept@) == requested(action_models(all).take(i as int), o@),
        decreases rest.len(),
    {
        let a = rest.remove(0);
        assert(a == all[i as int]);
        assert(rest@ =~= all.skip(i + 1));
        assert(action_models(all).take(i + 1).drop_last() =~= action_models(all).take(i as int));
        assert(action_models(all).take(i + 1).last() == action_model(a));
        if is_requested(a.kind, o) {
            proof {
                lemma_action_models_push(kept@, a);
            }
            kept.push(a);
        }
        i = i + 1;
    }
    assert(action_models(all).take(n as int) =~= action_models(all));
    kept
}

/// The response to a code action request: the actions for the diagnostics
/// when there are any, else the cursor's refactoring; of the requested kinds
/// only; none when no action is left.
pub open spec fn code_action_response(
    uri: Seq<char>,
    range: Range,
    ds: Seq<DiagnosticModel>,
    only: Option<Seq<String>>,
    lookups: Seq<Option<Vec<Symbol>>>,
    position: Position,
    imports: Seq<Range>,
    functions: Seq<FunctionDefinition>,
    annotations: Seq<AnnotationName>,
) -> Seq<ActionModel> {
    let all = if ds.len() > 0 {
        diagnostic_actions_model(uri, ds, lookups, position, imports)
    } else {
        model_if(add_signature_model(uri, functions, annotations, range))
    };
    match only {
        Some(o) => requested(all, o),
        None => all,
    }
}

/// Answers a code action request (see `code_action_response`); the plain
/// values that the parse tree and the index give are handed in.
pub fn handle_code_action(
    uri: &str,
    range: &Range,
    diagnostics: &Vec<Diagnostic>,
    only: &Option<Vec<String>>,
    matching_symbols: &Vec<Option<Vec<Symbol>>>,
    import_position: Position,
    imports: &Vec<Range>,
    functions: &Vec<FunctionDefinition>,
    annotations: &Vec<AnnotationName>,
) -> (r: Option<Vec<CodeAction>>)
    requires
        matching_symbols@.len() == diagnostics@.len(),
        forall|i: int| 0 <= i < imports@.len() ==> (#[trigger] imports@[i]).end.line < u32::MAX,
        forall|i: int| 0 <= i < annotations@.len() ==> ((#[trigger] annotations@[i]).end_row as u32) < u32::MAX,
    ensures
        ({
            let resp = code_action_response(
                uri@,
                *range,
                crate::diagnostics::diagnostic_models(diagnostics@),
                match only {
                    Some(o) => Some(o@),
                    None => None,
                },
                matching_symbols@,
                import_position,
                imports@,
                functions@,
                annotations@,
            );
            &&& (resp.len() == 0 <==> r is None)
            &&& (r matches Some(v) ==> action_models(v@) == resp)
        }),
{
    let actions = if diagnostics.len() > 0 {
        generate_diagnostic_actions(uri, diagnostics, matching_symbols, import_position, imports)
    } else {
        let mut v: Vec<CodeAction> = Vec::new();
        if let Some(a) = generate_add_type_signature_action(uri, functions, annotations, range) {
            proof {
                lemma_action_models_push(v@, a);
            }
            v.push(a);
        }
        assert(action_models(v@) =~= model_if(add_signature_model(uri@, functions@, annotations@, *range)));
        v
    };
    let kept = filter_actions(actions, only);
    if kept.len() == 0 {
        None
    } else {
        Some(kept)
    }
}

} // verus!

//! Rewriting import clauses and the module declaration when a module is
//! renamed, from the clauses the parser found.
use vstd::prelude::*;
use vstd::string::*;
use crate::ordering::str_equal;
use crate::positions::PositionError;
use crate::protocol::{Position, Range, TextEdit};
use crate::text::{
    byte_len, chars_in_bytes, chars_of, is_byte_boundary, lines, lines_of, string_from_chars,
    utf16_len,
};
use crate::text_edits::{before_byte, cuts, split_at_byte};

verus! {

/// The protocol position of a parser point (row, and column in bytes): the
/// same line, the column counted in UTF-16 code units of the line's head.
/// `None` when the document has no such line or the line is shorter.
pub open spec fn lsp_position_of(content: Seq<char>, row: int, column: int) -> Result<Position, PositionError> {
    let ls = lines_of(content);
    if row >= ls.len() {
        Err(PositionError::LineOutOfRange)
    } else if column > byte_len(ls[row]) {
        Err(PositionError::CharacterOutOfRange)
    } else {
        Ok(Position { line: row as u32, character: utf16_len(before_byte(ls[row], column)) as u32 })
    }
}

/// Slicing the point's line at its column does not panic.
pub open spec fn point_sliceable(content: Seq<char>, row: int, column: int) -> bool {
    let ls = lines_of(content);
    row >= ls.len() || column > byte_len(ls[row]) || is_byte_boundary(ls[row], column)
}

fn utf16_count(s: &[char]) -> (r: u64)
    requires
        byte_len(s@) <= u32::MAX,
    ensures
        r == utf16_len(s@),
        r <= byte_len(s@),
{
    let mut n: u64 = 0;
    let mut i: usize = 0;
    assert(s@.take(0) =~= Seq::<char>::empty());
    while i < s.len()
        invariant
            0 <= i <= s@.len(),
            n == utf16_len(s@.take(i as int)),
            n <= byte_len(s@.take(i as int)),
            byte_len(s@.take(i as int)) <= byte_len(s@),
            byte_len(s@) <= u32::MAX,
        decreases s.len() - i,
    {
        proof {
            crate::text::lemma_byte_len_take_step(s@, i as int);
            crate::text::lemma_byte_len_take_monotone(s@, i + 1, s@.len() as int);
            assert(s@.take(s@.len() as int) =~= s@);
        }
        let w = crate::text::char_utf16_width(s[i]);
        assert(crate::text::utf16_width(s[i as int]) <= crate::text::utf8_width(s[i as int])) by {
            reveal(crate::text::utf16_width);
            reveal(crate::text::utf8_width);
        }
        n = n + w as u64;
        i = i + 1;
    }
    assert(s@.take(s@.len() as int) =~= s@);
    n
}

/// The protocol position of a parser point (see `lsp_position_of`).  The
/// parser's points are 32-bit, hence the bound on the column.
pub fn ts_position_to_lsp_position(row: usize, column: usize, content: &str) -> (r: Result<Position, PositionError>)
    requires
        column <= u32::MAX,
        point_sliceable(content@, row as int, column as int),
    ensures
        r == lsp_position_of(content@, row as int, column as int),
{
    let text = chars_of(content);
    let ls = lines(text.as_slice());
    if row >= ls.len() {
        return Err(PositionError::LineOutOfRange);
    }
    let line = &ls[row];
    match split_at_byte(line.as_slice(), column as u32) {
        Some((head, _)) => {
            proof {
                crate::text::lemma_chars_in_bytes_unique(line@, chars_in_bytes(line@, column as int));
                crate::text::lemma_byte_len_take_monotone(
                    line@,
                    chars_in_bytes(line@, column as int),
                    line@.len() as int,
                );
                assert(line@.take(line@.len() as int) =~= line@);
            }
            let n = utf16_count(head.as_slice());
            Ok(Position { line: row as u32, character: n as u32 })
        },
        None => {
            if crate::text::byte_len_within(line.as_slice(), u32::MAX as usize).is_none() {
                proof {
                    assert(byte_len(line@) > u32::MAX);
                }
                return Err(PositionError::CharacterOutOfRange);
            }
            Err(PositionError::CharacterOutOfRange)
        },
    }
}

/// A clause the parser found that names a module (an import clause or the
/// module declaration): its text and range, the module name it holds, and
/// where that name starts in the clause, in characters.
#[derive(Debug, Clone)]
pub struct ModuleClause {
    pub text: String,
    pub start_row: usize,
    pub start_column: usize,
    pub end_row: usize,
    pub end_column: usize,
    pub module_name: String,
    pub name_offset: usize,
}

/// The clause's text with its module name replaced by `new_name`.
pub open spec fn renamed_clause(c: ModuleClause, new_name: Seq<char>) -> Seq<char> {
    c.text@.take(c.name_offset as int) + new_name + c.text@.skip(c.name_offset + c.module_name@.len())
}

/// The edit that rewrites a clause: its range, converted to protocol
/// positions, replaced by the clause with the new name.
pub open spec fn clause_edit(content: Seq<char>, c: ModuleClause, new_name: Seq<char>) -> Result<(Range, Seq<char>), PositionError> {
    match (
        lsp_position_of(content, c.start_row as int, c.start_column as int),
        lsp_position_of(content, c.end_row as int, c.end_column as int),
    ) {
        (Ok(s), Ok(e)) => Ok((Range { start: s, end: e }, renamed_clause(c, new_name))),
        (Err(x), _) => Err(x),
        (Ok(_), Err(x)) => Err(x),
    }
}

/// The clause is well formed for rewriting: its name lies within its text,
/// and its points are 32-bit points that fall on character boundaries.
pub open spec fn clause_ok(content: Seq<char>, c: ModuleClause) -> bool {
    &&& c.name_offset + c.module_name@.len() <= c.text@.len()
    &&& c.start_column <= u32::MAX
    &&& c.end_column <= u32::MAX
    &&& point_sliceable(content, c.start_row as int, c.start_column as int)
    &&& point_sliceable(content, c.end_row as int, c.end_column as int)
}

/// Whether slicing a line of `content` at a parser point does not panic
/// (see `point_sliceable`).
pub fn point_is_sliceable(content: &str, row: usize, column: usize) -> (r: bool)
    requires
        column <= u32::MAX,
    ensures
        r == point_sliceable(content@, row as int, column as int),
{
    let chars = crate::text::chars_of(content);
    let ls = crate::text::lines(chars.as_slice());
    if row >= ls.len() {
        return true;
    }
    let line = &ls[row];
    assert(line@ == lines_of(content@)[row as int]);
    match crate::text::locate_byte_offset(line.as_slice(), column) {
        None => true,
        Some(k) => match crate::positions::prefix_bytes(line.as_slice(), k) {
            Some(n) => {
                if n == column {
                    assert(line@.take(k as int) == line@.take(k as int));
                    assert(byte_len(line@.take(k as int)) == column);
                }
                n == column
            },
            None => false,
        },
    }
}

/// Whether a clause can be handed to `rewrite_imports` or
/// `update_module_declaration` (see `clause_ok`).
pub fn clause_fits(content: &str, c: &ModuleClause) -> (r: bool)
    ensures
        r == clause_ok(content@, *c),
{
    let t = crate::text::chars_of(c.text.as_str());
    let m = crate::text::chars_of(c.module_name.as_str());
    if !(c.name_offset <= t.len() && m.len() <= t.len() - c.name_offset) {
        return false;
    }
    if c.start_column > u32::MAX as usize || c.end_column > u32::MAX as usize {
        return false;
    }
    point_is_sliceable(content, c.start_row, c.start_column) && point_is_sliceable(
        content,
        c.end_row,
        c.end_column,
    )
}

fn rewrite_clause(content: &str, c: &ModuleClause, new_name: &str) -> (r: Result<TextEdit, PositionError>)
    requires
        clause_ok(content@, *c),
    ensures
        match clause_edit(content@, *c, new_name@) {
            Ok((range, text)) => r matches Ok(e) && e.range == range && e.new_text@ == text,
            Err(x) => r == Err::<TextEdit, PositionError>(x),
        },
{
    let start = ts_position_to_lsp_position(c.start_row, c.start_column, content)?;
    let end = ts_position_to_lsp_position(c.end_row, c.end_column, content)?;
    let t = chars_of(c.text.as_str());
    let n = chars_of(c.module_name.as_str());
    let head = crate::line_scan::slice_chars(t.as_slice(), 0, c.name_offset);
    assert(c.name_offset + n@.len() <= t@.len());
    let tl: usize = t.len();
    let tail = crate::line_scan::slice_chars(t.as_slice(), c.name_offset + n.len(), tl);
    let mut s = string_from_chars(head.as_slice());
    s.append(new_name);
    let rest = string_from_chars(tail.as_slice());
    s.append(rest.as_str());
    assert(head@ =~= c.text@.take(c.name_offset as int));
    assert(tail@ =~= c.text@.skip(c.name_offset + c.module_name@.len()));
    Ok(TextEdit { range: Range { start, end }, new_text: s })
}

pub open spec fn edit_view(e: TextEdit) -> (Range, Seq<char>) {
    (e.range, e.new_text@)
}

pub open spec fn edit_views(v: Seq<TextEdit>) -> Seq<(Range, Seq<char>)> {
    v.map_values(|e: TextEdit| edit_view(e))
}

/// The edits of the clauses that name `old_name`, in order.
pub open spec fn clause_edits(
    content: Seq<char>,
    clauses: Seq<ModuleClause>,
    old_name: Seq<char>,
    new_name: Seq<char>,
) -> Result<Seq<(Range, Seq<char>)>, PositionError>
    decreases clauses.len(),
{
    if clauses.len() == 0 {
        Ok(Seq::empty())
    } else {
        match clause_edits(content, clauses.drop_last(), old_name, new_name) {
            Ok(r) => {
                let c = clauses.last();
                if c.module_name@ == old_name {
                    match clause_edit(content, c, new_name) {
                        Ok(e) => Ok(r.push(e)),
                        Err(x) => Err(x),
                    }
                } else {
                    Ok(r)
                }
            },
            Err(x) => Err(x),
        }
    }
}

proof fn lemma_edit_views_push(v: Seq<TextEdit>, e: TextEdit)
    ensures
        edit_views(v.push(e)) =~= edit_views(v).push(edit_view(e)),
{
    assert forall|k: int| 0 <= k < v.len() + 1 implies #[trigger] edit_views(v.push(e))[k]
        == edit_views(v).push(edit_view(e))[k] by {
        if k < v.len() {
            assert(v.push(e)[k] == v[k]);
        }
    }
}

proof fn lemma_clause_edits_settled(
    content: Seq<char>,
    clauses: Seq<ModuleClause>,
    old_name: Seq<char>,
    new_name: Seq<char>,
    i: int,
)
    requires
        0 < i <= clauses.len(),
        clause_edits(content, clauses.take(i), old_name, new_name) is Err,
    ensures
        clause_edits(content, clauses, old_name, new_name) == clause_edits(content, clauses.take(i), old_name, new_name),
    decreases clauses.len() - i,
{
    if i < clauses.len() {
        assert(clauses.take(i + 1).drop_last() =~= clauses.take(i));
        lemma_clause_edits_settled(content, clauses, old_name, new_name, i + 1);
    } else {
        assert(clauses.take(i) =~= clauses);
    }
}

/// The edits for the clauses that name `old_name`, in order.
fn edits_for_clauses(content: &str, clauses: &Vec<ModuleClause>, old_name: &str, new_name: &str) -> (r: Result<
    Vec<TextEdit>,
    PositionError,
>)
    requires
        forall|i: int| 0 <= i < clauses@.len() ==> clause_ok(content@, #[trigger] clauses@[i]),
    ensures
        match clause_edits(content@, clauses@, old_name@, new_name@) {
            Ok(v) => r matches Ok(e) && edit_views(e@) == v,
            Err(x) => r == Err::<Vec<TextEdit>, PositionError>(x),
        },
{
    let mut out: Vec<TextEdit> = Vec::new();
    let mut i: usize = 0;
    assert(clauses@.take(0) =~= Seq::<ModuleClause>::empty());
    assert(edit_views(out@) =~= Seq::<(Range, Seq<char>)>::empty());
    while i < clauses.len()
        invariant
            0 <= i <= clauses@.len(),
            forall|k: int| 0 <= k < clauses@.len() ==> clause_ok(content@, #[trigger] clauses@[k]),
            clause_edits(content@, clauses@.take(i as int), old_name@, new_name@) == Ok::<
                Seq<(Range, Seq<char>)>,
                PositionError,
            >(edit_views(out@)),
        decreases clauses.len() - i,
    {
        assert(clauses@.take(i + 1).drop_last() =~= clauses@.take(i as int));
        assert(clauses@.take(i + 1).last() == clauses@[i as int]);
        let c = &clauses[i];
        if str_equal(c.module_name.as_str(), old_name) {
            match rewrite_clause(content, c, new_name) {
                Ok(e) => {
                    proof {
                        lemma_edit_views_push(out@, e);
                    }
                    out.push(e);
                },
                Err(x) => {
                    proof {
                        lemma_clause_edits_settled(content@, clauses@, old_name@, new_name@, i + 1);
                    }
                    return Err(x);
                },
            }
        }
        i = i + 1;
    }
    assert(clauses@.take(clauses@.len() as int) =~= clauses@);
    Ok(out)
}

/// The number of imports of `name` among the imported modules.
pub open spec fn import_count(imported: Seq<String>, name: Seq<char>) -> nat
    decreases imported.len(),
{
    if imported.len() == 0 {
        0
    } else {
        import_count(imported.drop_last(), name) + if imported.last()@ == name {
            1nat
        } else {
            0nat
        }
    }
}

proof fn lemma_import_count_prefix(imported: Seq<String>, name: Seq<char>, i: int)
    requires
        0 <= i <= imported.len(),
    ensures
        import_count(imported.take(i), name) <= import_count(imported, name),
    decreases imported.len() - i,
{
    if i < imported.len() {
        assert(imported.take(i + 1).drop_last() =~= imported.take(i));
        lemma_import_count_prefix(imported, name, i + 1);
    } else {
        assert(imported.take(i) =~= imported);
    }
}

/// The edits of `k` rounds of the clause edits, one after another.
pub open spec fn repeated(e: Seq<(Range, Seq<char>)>, k: nat) -> Seq<(Range, Seq<char>)>
    decreases k,
{
    if k == 0 {
        Seq::empty()
    } else {
        repeated(e, (k - 1) as nat) + e
    }
}

/// The edits that rename the imports of `old_name` to `new_name`: for each
/// import of the old module (from the imported modules, in order), the
/// import clauses that name it are rewritten, each replaced by the clause
/// with the new name.
pub fn rewrite_imports(
    content: &str,
    imported_modules: &Vec<String>,
    clauses: &Vec<ModuleClause>,
    old_module_name: &str,
    new_module_name: &str,
) -> (r: Result<Vec<TextEdit>, PositionError>)
    requires
        forall|i: int| 0 <= i < clauses@.len() ==> clause_ok(content@, #[trigger] clauses@[i]),
    ensures
        import_count(imported_modules@, old_module_name@) == 0 ==> (r matches Ok(v) && v@.len() == 0),
        import_count(imported_modules@, old_module_name@) > 0 ==> match clause_edits(
            content@,
            clauses@,
            old_module_name@,
            new_module_name@,
        ) {
            Ok(e) => r matches Ok(v) && edit_views(v@) == repeated(
                e,
                import_count(imported_modules@, old_module_name@),
            ),
            Err(x) => r == Err::<Vec<TextEdit>, PositionError>(x),
        },
{
    let mut out: Vec<TextEdit> = Vec::new();
    let mut i: usize = 0;
    assert(imported_modules@.take(0) =~= Seq::<String>::empty());
    assert(edit_views(out@) =~= Seq::<(Range, Seq<char>)>::empty());
    while i < imported_modules.len()
        invariant
            0 <= i <= imported_modules@.len(),
            forall|k: int| 0 <= k < clauses@.len() ==> clause_ok(content@, #[trigger] clauses@[k]),
            import_count(imported_modules@.take(i as int), old_module_name@) == 0 ==> out@.len() == 0,
            import_count(imported_modules@.take(i as int), old_module_name@) > 0 ==> clause_edits(
                content@,
                clauses@,
                old_module_name@,
                new_module_name@,
            ) is Ok,
            clause_edits(content@, clauses@, old_module_name@, new_module_name@) matches Ok(e)
                ==> edit_views(out@) == repeated(
                e,
                import_count(imported_modules@.take(i as int), old_module_name@),
            ),
        decreases imported_modules.len() - i,
    {
        assert(imported_modules@.take(i + 1).drop_last() =~= imported_modules@.take(i as int));
        assert(imported_modules@.take(i + 1).last() == imported_modules@[i as int]);
        if str_equal(imported_modules[i].as_str(), old_module_name) {
            proof {
                lemma_import_count_prefix(imported_modules@, old_module_name@, i + 1);
            }
            let more = match edits_for_clauses(content, clauses, old_module_name, new_module_name) {
                Ok(m) => m,
                Err(x) => return Err(x),
            };
            let ghost before = out@;
            let mut m = more;
            let ghost added = m@;
            out.append(&mut m);
            proof {
                assert(out@ == before + added);
                assert forall|k: int| 0 <= k < out@.len() implies #[trigger] edit_views(out@)[k] == (edit_views(before) + edit_views(added))[k] by {
                    if k < before.len() {
                        assert(out@[k] == before[k]);
                    } else {
                        assert(out@[k] == added[k - before.len()]);
                    }
                }
                assert(edit_views(out@) =~= edit_views(before) + edit_views(added));
            }
        }
        i = i + 1;
    }
    assert(imported_modules@.take(imported_modules@.len() as int) =~= imported_modules@);
    Ok(out)
}

/// The edit that renames the module in its declaration: the first
/// declaration clause the parser found, replaced by the clause with the new
/// name; none without a declaration.
pub fn update_module_declaration(content: &str, declarations: &Vec<ModuleClause>, new_module_name: &str) -> (r: Result<
    Vec<TextEdit>,
    PositionError,
>)
    requires
        forall|i: int| 0 <= i < declarations@.len() ==> clause_ok(content@, #[trigger] declarations@[i]),
    ensures
        declarations@.len() == 0 ==> (r matches Ok(v) && v@.len() == 0),
        declarations@.len() > 0 ==> match clause_edit(content@, declarations@[0], new_module_name@) {
            Ok(e) => r matches Ok(v) && edit_views(v@) == seq![e],
            Err(x) => r == Err::<Vec<TextEdit>, PositionError>(x),
        },
{
    let mut out: Vec<TextEdit> = Vec::new();
    if declarations.len() > 0 {
        let e = rewrite_clause(content, &declarations[0], new_module_name)?;
        out.push(e);
        assert(edit_views(out@) =~= seq![edit_view(e)]);
    }
    Ok(out)
}

} // verus!

//! Symbols, references and imports read from the matches of the parser's
//! queries over a Gren document.  The matches come in as plain values: each
//! capture's name, text and points.
use vstd::prelude::*;
use vstd::string::*;
use crate::chars::is_white_space;
use crate::line_scan::{starts_with, str_contains, trim, trim_chars};
use crate::ordering::str_equal;
use crate::protocol::{Position, Range};
use crate::symbols::{kind_number, ReferenceKind, Symbol, SymbolKind, SymbolReference};
use crate::text::{chars_of, join_strings_with, join_text, string_texts};

verus! {

/// One capture of a query match: the capture's name, the captured node's
/// text, and its start and end points (row, column in bytes).
#[derive(Debug, Clone)]
pub struct QueryCapture {
    pub name: String,
    pub text: String,
    pub start_row: usize,
    pub start_column: usize,
    pub end_row: usize,
    pub end_column: usize,
}

/// One match of a query: which of the query's patterns matched, and its
/// captures in order.
#[derive(Debug, Clone)]
pub struct QueryMatch {
    pub pattern_index: usize,
    pub captures: Vec<QueryCapture>,
}

/// The protocol range of a captured node (points cast to `u32`).
pub open spec fn capture_range(c: QueryCapture) -> Range {
    Range {
        start: Position { line: c.start_row as u32, character: c.start_column as u32 },
        end: Position { line: c.end_row as u32, character: c.end_column as u32 },
    }
}

fn range_of(c: &QueryCapture) -> (r: Range)
    ensures
        r == capture_range(*c),
{
    Range {
        start: Position { line: c.start_row as u32, character: c.start_column as u32 },
        end: Position { line: c.end_row as u32, character: c.end_column as u32 },
    }
}

/// The empty range at the start of the document.
pub open spec fn default_range() -> Range {
    Range { start: Position { line: 0, character: 0 }, end: Position { line: 0, character: 0 } }
}

/// The symbol made of these parts, not yet stored.
pub open spec fn symbol_is(
    s: Symbol,
    name: Seq<char>,
    kind: SymbolKind,
    uri: Seq<char>,
    range: Range,
    container: Option<Seq<char>>,
    signature: Option<Seq<char>>,
) -> bool {
    &&& s.id is None
    &&& s.name@ == name
    &&& s.kind == kind_number(kind)
    &&& s.uri@ == uri
    &&& s.range_start_line == range.start.line as i32
    &&& s.range_start_char == range.start.character as i32
    &&& s.range_end_line == range.end.line as i32
    &&& s.range_end_char == range.end.character as i32
    &&& (s.container is Some <==> container is Some)
    &&& (s.container matches Some(c) ==> container == Some(c@))
    &&& (s.signature is Some <==> signature is Some)
    &&& (s.signature matches Some(t) ==> signature == Some(t@))
    &&& s.documentation is None
    &&& s.created_at is None
}

pub open spec fn opt_view(o: Option<&str>) -> Option<Seq<char>> {
    match o {
        Some(s) => Some(s@),
        None => None,
    }
}

fn opt_string(o: Option<&str>) -> (r: Option<String>)
    ensures
        r is Some <==> o is Some,
        r matches Some(s) ==> opt_view(o) == Some(s@),
{
    match o {
        Some(s) => Some(s.to_string()),
        None => None,
    }
}

/// Where the first capture of this name is in the match, or -1.
pub open spec fn first_named(cs: Seq<QueryCapture>, name: Seq<char>) -> int
    decreases cs.len(),
{
    if cs.len() == 0 {
        -1
    } else if first_named(cs.drop_last(), name) >= 0 {
        first_named(cs.drop_last(), name)
    } else if cs.last().name@ == name {
        cs.len() - 1
    } else {
        -1
    }
}

proof fn lemma_first_named_extends(cs: Seq<QueryCapture>, name: Seq<char>, n: int)
    requires
        0 < n <= cs.len(),
        first_named(cs.take(n), name) >= 0,
    ensures
        first_named(cs, name) == first_named(cs.take(n), name),
    decreases cs.len() - n,
{
    if n < cs.len() {
        assert(cs.take(n + 1).drop_last() =~= cs.take(n));
        lemma_first_named_extends(cs, name, n + 1);
    } else {
        assert(cs.take(n) =~= cs);
    }
}

fn find_named(cs: &Vec<QueryCapture>, name: &str) -> (r: Option<usize>)
    ensures
        r matches Some(i) ==> i == first_named(cs@, name@) && i < cs@.len(),
        r is None ==> first_named(cs@, name@) == -1,
{
    let mut i: usize = 0;
    assert(cs@.take(0) =~= Seq::<QueryCapture>::empty());
    while i < cs.len()
        invariant
            0 <= i <= cs@.len(),
            first_named(cs@.take(i as int), name@) == -1,
        decreases cs.len() - i,
    {
        assert(cs@.take(i + 1).drop_last() =~= cs@.take(i as int));
        if str_equal(cs[i].name.as_str(), name) {
            proof {
                lemma_first_named_extends(cs@, name@, i + 1);
            }
            return Some(i);
        }
        i = i + 1;
    }
    assert(cs@.take(cs@.len() as int) =~= cs@);
    None
}

/// The module name: the text of the first `module.name` capture.
pub open spec fn module_name_in(ms: Seq<QueryMatch>) -> Option<Seq<char>>
    decreases ms.len(),
{
    if ms.len() == 0 {
        None
    } else if module_name_in(ms.drop_last()) is Some {
        module_name_in(ms.drop_last())
    } else {
        let i = first_named(ms.last().captures@, "module.name"@);
        if i >= 0 {
            Some(ms.last().captures@[i].text@)
        } else {
            None
        }
    }
}

proof fn lemma_module_name_extends(ms: Seq<QueryMatch>, n: int)
    requires
        0 < n <= ms.len(),
        module_name_in(ms.take(n)) is Some,
    ensures
        module_name_in(ms) == module_name_in(ms.take(n)),
    decreases ms.len() - n,
{
    if n < ms.len() {
        assert(ms.take(n + 1).drop_last() =~= ms.take(n));
        lemma_module_name_extends(ms, n + 1);
    } else {
        assert(ms.take(n) =~= ms);
    }
}

/// The module name of the file, from the matches of the module query.
pub fn extract_module_name(module_matches: &Vec<QueryMatch>) -> (r: Option<String>)
    ensures
        r is Some <==> module_name_in(module_matches@) is Some,
        r matches Some(n) ==> module_name_in(module_matches@) == Some(n@),
{
    let mut i: usize = 0;
    assert(module_matches@.take(0) =~= Seq::<QueryMatch>::empty());
    while i < module_matches.len()
        invariant
            0 <= i <= module_matches@.len(),
            module_name_in(module_matches@.take(i as int)) is None,
        decreases module_matches.len() - i,
    {
        assert(module_matches@.take(i + 1).drop_last() =~= module_matches@.take(i as int));
        assert(module_matches@.take(i + 1).last() == module_matches@[i as int]);
        proof {
            reveal_strlit("module.name");
        }
        if let Some(k) = find_named(&module_matches[i].captures, "module.name") {
            proof {
                lemma_module_name_extends(module_matches@, i + 1);
            }
            return Some(module_matches[i].captures[k].text.clone());
        }
        i = i + 1;
    }
    assert(module_matches@.take(module_matches@.len() as int) =~= module_matches@);
    None
}

/// The type annotations of one match: for each `function.name` capture, the
/// name and the text of the match's first `function.type` capture, when
/// there is one.
pub open spec fn annotations_in(cs: Seq<QueryCapture>, all: Seq<QueryCapture>) -> Seq<(Seq<char>, Seq<char>)>
    decreases cs.len(),
{
    if cs.len() == 0 {
        Seq::empty()
    } else {
        let r = annotations_in(cs.drop_last(), all);
        let t = first_named(all, "function.type"@);
        if cs.last().name@ == "function.name"@ && t >= 0 {
            r.push((cs.last().text@, all[t].text@))
        } else {
            r
        }
    }
}

/// The type annotations of the annotation pattern's matches, in order.
pub open spec fn annotations_of(ms: Seq<QueryMatch>) -> Seq<(Seq<char>, Seq<char>)>
    decreases ms.len(),
{
    if ms.len() == 0 {
        Seq::empty()
    } else {
        annotations_of(ms.drop_last()) + if ms.last().pattern_index == 0 {
            annotations_in(ms.last().captures@, ms.last().captures@)
        } else {
            Seq::empty()
        }
    }
}

/// The type annotated last for a name, if any.
pub open spec fn last_type_of(a: Seq<(Seq<char>, Seq<char>)>, name: Seq<char>) -> Option<Seq<char>>
    decreases a.len(),
{
    if a.len() == 0 {
        None
    } else if a.last().0 == name {
        Some(a.last().1)
    } else {
        last_type_of(a.drop_last(), name)
    }
}

/// What a declaration match says: the last `function.name` capture's text,
/// and the range of the last `function.name` or `function.declaration`
/// capture (the empty range at the start without either).
pub open spec fn declaration_in(cs: Seq<QueryCapture>) -> (Seq<char>, Range)
    decreases cs.len(),
{
    if cs.len() == 0 {
        (Seq::empty(), default_range())
    } else {
        let (n, r) = declaration_in(cs.drop_last());
        let c = cs.last();
        if c.name@ == "function.name"@ {
            (c.text@, capture_range(c))
        } else if c.name@ == "function.declaration"@ {
            (n, capture_range(c))
        } else {
            (n, r)
        }
    }
}

/// The functions the matches declare, in order: name, range and signature
/// (`name : type`, from the last annotation of the name).
pub open spec fn functions_of(ms: Seq<QueryMatch>, annotations: Seq<(Seq<char>, Seq<char>)>) -> Seq<
    (Seq<char>, Range, Option<Seq<char>>),
>
    decreases ms.len(),
{
    if ms.len() == 0 {
        Seq::empty()
    } else {
        let r = functions_of(ms.drop_last(), annotations);
        let (n, range) = declaration_in(ms.last().captures@);
        if ms.last().pattern_index == 1 && n.len() > 0 {
            r.push(
                (
                    n,
                    range,
                    match last_type_of(annotations, n) {
                        Some(t) => Some(n + " : "@ + t),
                        None => None,
                    },
                ),
            )
        } else {
            r
        }
    }
}

/// Every function found has a name, and its signature is `name : type` with
/// the type annotated last for that name, or none when the name has no
/// annotation.
pub proof fn law_function_signatures(ms: Seq<QueryMatch>, annotations: Seq<(Seq<char>, Seq<char>)>)
    ensures
        forall|k: int| 0 <= k < functions_of(ms, annotations).len() ==> {
            let f = #[trigger] functions_of(ms, annotations)[k];
            &&& f.0.len() > 0
            &&& f.2 == match last_type_of(annotations, f.0) {
                Some(t) => Some(f.0 + " : "@ + t),
                None => None::<Seq<char>>,
            }
        },
    decreases ms.len(),
{
    if ms.len() > 0 {
        law_function_signatures(ms.drop_last(), annotations);
        let r = functions_of(ms.drop_last(), annotations);
        let all = functions_of(ms, annotations);
        assert forall|k: int| 0 <= k < all.len() implies {
            let f = #[trigger] all[k];
            &&& f.0.len() > 0
            &&& f.2 == match last_type_of(annotations, f.0) {
                Some(t) => Some(f.0 + " : "@ + t),
                None => None::<Seq<char>>,
            }
        } by {
            if k < r.len() {
                assert(all[k] == r[k]);
            }
        }
    }
}

/// The symbols `extract_functions` makes: each is a function (kind 12) of
/// the given module, and its signature is `name : type` with the type
/// annotated last for its name, or none when the name has no annotation.
pub proof fn law_extracted_functions(
    v: Seq<Symbol>,
    ms: Seq<QueryMatch>,
    uri: Seq<char>,
    container: Option<Seq<char>>,
)
    requires
        symbols_are(v, functions_of(ms, annotations_of(ms)), SymbolKind::FUNCTION, uri, container),
    ensures
        forall|k: int| 0 <= k < v.len() ==> {
            &&& (#[trigger] v[k]).kind == 12
            &&& (v[k].container is Some <==> container is Some)
            &&& (v[k].container matches Some(c) ==> container == Some(c@))
            &&& v[k].signature is Some <==> last_type_of(annotations_of(ms), v[k].name@) is Some
            &&& (v[k].signature matches Some(t) ==> t@ == v[k].name@ + " : "@ + last_type_of(
                annotations_of(ms),
                v[k].name@,
            )->0)
        },
{
    law_function_signatures(ms, annotations_of(ms));
    let f = functions_of(ms, annotations_of(ms));
    assert forall|k: int| 0 <= k < v.len() implies {
        &&& (#[trigger] v[k]).kind == 12
        &&& (v[k].container is Some <==> container is Some)
        &&& (v[k].container matches Some(c) ==> container == Some(c@))
        &&& v[k].signature is Some <==> last_type_of(annotations_of(ms), v[k].name@) is Some
        &&& (v[k].signature matches Some(t) ==> t@ == v[k].name@ + " : "@ + last_type_of(
            annotations_of(ms),
            v[k].name@,
        )->0)
    } by {
        assert(symbol_is(v[k], f[k].0, SymbolKind::FUNCTION, uri, f[k].1, container, f[k].2));
    }
}

fn collect_annotations(m: &QueryMatch, out: &mut Vec<(String, String)>)
    ensures
        string_pairs(final(out)@) == string_pairs(old(out)@) + annotations_in(m.captures@, m.captures@),
{
    proof {
        reveal_strlit("function.type");
        reveal_strlit("function.name");
    }
    let t = find_named(&m.captures, "function.type");
    let cs = &m.captures;
    let ghost start = string_pairs(out@);
    let mut i: usize = 0;
    assert(cs@.take(0) =~= Seq::<QueryCapture>::empty());
    assert(string_pairs(out@) =~= start + annotations_in(cs@.take(0), cs@));
    while i < cs.len()
        invariant
            0 <= i <= cs@.len(),
            t matches Some(k) ==> k == first_named(cs@, "function.type"@) && k < cs@.len(),
            t is None ==> first_named(cs@, "function.type"@) == -1,
            string_pairs(out@) == start + annotations_in(cs@.take(i as int), cs@),
        decreases cs.len() - i,
    {
        assert(cs@.take(i + 1).drop_last() =~= cs@.take(i as int));
        assert(cs@.take(i + 1).last() == cs@[i as int]);
        if str_equal(cs[i].name.as_str(), "function.name") {
            if let Some(k) = t {
                let ghost before = out@;
                out.push((cs[i].text.clone(), cs[k].text.clone()));
                assert(string_pairs(out@) =~= string_pairs(before).push((cs@[i as int].text@, cs@[k as int].text@)));
            }
        }
        i = i + 1;
    }
    assert(cs@.take(cs@.len() as int) =~= cs@);
}

pub open spec fn string_pairs(v: Seq<(String, String)>) -> Seq<(Seq<char>, Seq<char>)> {
    v.map_values(|p: (String, String)| (p.0@, p.1@))
}

fn lookup_type(a: &Vec<(String, String)>, name: &str) -> (r: Option<String>)
    ensures
        r is Some <==> last_type_of(string_pairs(a@), name@) is Some,
        r matches Some(t) ==> last_type_of(string_pairs(a@), name@) == Some(t@),
{
    let mut i: usize = a.len();
    assert(string_pairs(a@).take(a@.len() as int) =~= string_pairs(a@));
    while i > 0
        invariant
            0 <= i <= a@.len(),
            last_type_of(string_pairs(a@), name@) == last_type_of(string_pairs(a@).take(i as int), name@),
        decreases i,
    {
        assert(string_pairs(a@).take(i as int).drop_last() =~= string_pairs(a@).take(i - 1));
        if str_equal(a[i - 1].0.as_str(), name) {
            return Some(a[i - 1].1.clone());
        }
        i = i - 1;
    }
    assert(string_pairs(a@).take(0) =~= Seq::<(Seq<char>, Seq<char>)>::empty());
    None
}

fn declaration(cs: &Vec<QueryCapture>) -> (r: (String, Range))
    ensures
        r.0@ == declaration_in(cs@).0,
        r.1 == declaration_in(cs@).1,
{
    proof {
        reveal_strlit("function.name");
        reveal_strlit("function.declaration");
    }
    let mut name = String::new();
    let mut range = Range { start: Position { line: 0, character: 0 }, end: Position { line: 0, character: 0 } };
    let mut i: usize = 0;
    assert(cs@.take(0) =~= Seq::<QueryCapture>::empty());
    assert(name@ =~= Seq::<char>::empty());
    while i < cs.len()
        invariant
            0 <= i <= cs@.len(),
            name@ == declaration_in(cs@.take(i as int)).0,
            range == declaration_in(cs@.take(i as int)).1,
        decreases cs.len() - i,
    {
        assert(cs@.take(i + 1).drop_last() =~= cs@.take(i as int));
        assert(cs@.take(i + 1).last() == cs@[i as int]);
        let c = &cs[i];
        if str_equal(c.name.as_str(), "function.name") {
            name = c.text.clone();
            range = range_of(c);
        } else if str_equal(c.name.as_str(), "function.declaration") {
            range = range_of(c);
        }
        i = i + 1;
    }
    assert(cs@.take(cs@.len() as int) =~= cs@);
    (name, range)
}

/// The parts of a symbol list, for the contracts: name, range, signature.
pub open spec fn symbols_are(
    v: Seq<Symbol>,
    parts: Seq<(Seq<char>, Range, Option<Seq<char>>)>,
    kind: SymbolKind,
    uri: Seq<char>,
    container: Option<Seq<char>>,
) -> bool {
    &&& v.len() == parts.len()
    &&& forall|i: int|
        0 <= i < v.len() ==> symbol_is(
            #[trigger] v[i],
            parts[i].0,
            kind,
            uri,
            parts[i].1,
            container,
            parts[i].2,
        )
}

/// The functions the matches of the function query declare (see
/// `functions_of`), in the module `container`.
pub fn extract_functions(uri: &str, function_matches: &Vec<QueryMatch>, container: Option<&str>) -> (r: Vec<Symbol>)
    ensures
        symbols_are(
            r@,
            functions_of(function_matches@, annotations_of(function_matches@)),
            SymbolKind::FUNCTION,
            uri@,
            opt_view(container),
        ),
{
    let ms = function_matches;
    let mut notes: Vec<(String, String)> = Vec::new();
    let mut i: usize = 0;
    assert(ms@.take(0) =~= Seq::<QueryMatch>::empty());
    assert(string_pairs(notes@) =~= Seq::<(Seq<char>, Seq<char>)>::empty());
    while i < ms.len()
        invariant
            0 <= i <= ms@.len(),
            string_pairs(notes@) == annotations_of(ms@.take(i as int)),
        decreases ms.len() - i,
    {
        assert(ms@.take(i + 1).drop_last() =~= ms@.take(i as int));
        assert(ms@.take(i + 1).last() == ms@[i as int]);
        if ms[i].pattern_index == 0 {
            collect_annotations(&ms[i], &mut notes);
        } else {
            assert(annotations_of(ms@.take(i + 1)) =~= annotations_of(ms@.take(i as int)));
        }
        i = i + 1;
    }
    assert(ms@.take(ms@.len() as int) =~= ms@);
    let ghost notes_view = string_pairs(notes@);
    let mut out: Vec<Symbol> = Vec::new();
    let mut j: usize = 0;
    assert(ms@.take(0) =~= Seq::<QueryMatch>::empty());
    while j < ms.len()
        invariant
            0 <= j <= ms@.len(),
            notes_view == string_pairs(notes@),
            notes_view == annotations_of(ms@),
            symbols_are(out@, functions_of(ms@.take(j as int), notes_view), SymbolKind::FUNCTION, uri@, opt_view(container)),
        decreases ms.len() - j,
    {
        assert(ms@.take(j + 1).drop_last() =~= ms@.take(j as int));
        assert(ms@.take(j + 1).last() == ms@[j as int]);
        if ms[j].pattern_index == 1 {
            let (name, range) = declaration(&ms[j].captures);
            if !name.as_str().is_empty() {
                let signature = match lookup_type(&notes, name.as_str()) {
                    Some(t) => {
                        let mut s = name.clone();
                        s.append(" : ");
                        s.append(t.as_str());
                        Some(s)
                    },
                    None => None,
                };
                let ghost prev = out@;
                let s = Symbol::new(name, SymbolKind::FUNCTION, uri, range, opt_string(container), signature, None);
                out.push(s);
                assert(forall|k: int| 0 <= k < prev.len() ==> out@[k] == prev[k]);
            }
        }
        j = j + 1;
    }
    assert(ms@.take(ms@.len() as int) =~= ms@);
    out
}

/// The text of the last capture of this name (empty without one).
pub open spec fn last_text(cs: Seq<QueryCapture>, name: Seq<char>) -> Seq<char>
    decreases cs.len(),
{
    if cs.len() == 0 {
        Seq::empty()
    } else if cs.last().name@ == name {
        cs.last().text@
    } else {
        last_text(cs.drop_last(), name)
    }
}

/// The range of the last capture of this name (the empty range at the start
/// without one).
pub open spec fn last_range(cs: Seq<QueryCapture>, name: Seq<char>) -> Range
    decreases cs.len(),
{
    if cs.len() == 0 {
        default_range()
    } else if cs.last().name@ == name {
        capture_range(cs.last())
    } else {
        last_range(cs.drop_last(), name)
    }
}

/// The texts of the captures of this name, in order.
pub open spec fn texts_named(cs: Seq<QueryCapture>, name: Seq<char>) -> Seq<Seq<char>>
    decreases cs.len(),
{
    if cs.len() == 0 {
        Seq::empty()
    } else if cs.last().name@ == name {
        texts_named(cs.drop_last(), name).push(cs.last().text@)
    } else {
        texts_named(cs.drop_last(), name)
    }
}

fn last_text_of(cs: &Vec<QueryCapture>, name: &str) -> (r: String)
    ensures
        r@ == last_text(cs@, name@),
{
    let mut i: usize = cs.len();
    assert(cs@.take(cs@.len() as int) =~= cs@);
    while i > 0
        invariant
            0 <= i <= cs@.len(),
            last_text(cs@, name@) == last_text(cs@.take(i as int), name@),
        decreases i,
    {
        assert(cs@.take(i as int).drop_last() =~= cs@.take(i - 1));
        if str_equal(cs[i - 1].name.as_str(), name) {
            return cs[i - 1].text.clone();
        }
        i = i - 1;
    }
    assert(cs@.take(0) =~= Seq::<QueryCapture>::empty());
    let e = String::new();
    assert(e@ =~= Seq::<char>::empty());
    e
}

fn last_range_of(cs: &Vec<QueryCapture>, name: &str) -> (r: Range)
    ensures
        r == last_range(cs@, name@),
{
    let mut i: usize = cs.len();
    assert(cs@.take(cs@.len() as int) =~= cs@);
    while i > 0
        invariant
            0 <= i <= cs@.len(),
            last_range(cs@, name@) == last_range(cs@.take(i as int), name@),
        decreases i,
    {
        assert(cs@.take(i as int).drop_last() =~= cs@.take(i - 1));
        if str_equal(cs[i - 1].name.as_str(), name) {
            return range_of(&cs[i - 1]);
        }
        i = i - 1;
    }
    assert(cs@.take(0) =~= Seq::<QueryCapture>::empty());
    Range { start: Position { line: 0, character: 0 }, end: Position { line: 0, character: 0 } }
}

fn all_texts_of(cs: &Vec<QueryCapture>, name: &str) -> (r: Vec<String>)
    ensures
        string_texts(r@) == texts_named(cs@, name@),
{
    let mut out: Vec<String> = Vec::new();
    let mut i: usize = 0;
    assert(cs@.take(0) =~= Seq::<QueryCapture>::empty());
    assert(string_texts(out@) =~= Seq::<Seq<char>>::empty());
    while i < cs.len()
        invariant
            0 <= i <= cs@.len(),
            string_texts(out@) == texts_named(cs@.take(i as int), name@),
        decreases cs.len() - i,
    {
        assert(cs@.take(i + 1).drop_last() =~= cs@.take(i as int));
        assert(cs@.take(i + 1).last() == cs@[i as int]);
        if str_equal(cs[i].name.as_str(), name) {
            let ghost before = out@;
            out.push(cs[i].text.clone());
            assert(string_texts(out@) =~= string_texts(before).push(cs@[i as int].text@));
        }
        i = i + 1;
    }
    assert(cs@.take(cs@.len() as int) =~= cs@);
    out
}

/// The signature of a custom type: `type T`, or `type T = A | B` with its
/// variants.
pub open spec fn custom_type_signature(name: Seq<char>, variants: Seq<Seq<char>>) -> Seq<char> {
    if variants.len() == 0 {
        "type "@ + name
    } else {
        "type "@ + name + " = "@ + join_text(variants, " | "@)
    }
}

/// The types the matches of the type query declare, in order: custom types
/// (pattern 0) as enums, type aliases (pattern 1) as structs.
pub open spec fn types_of(ms: Seq<QueryMatch>) -> Seq<(Seq<char>, SymbolKind, Range, Seq<char>)>
    decreases ms.len(),
{
    if ms.len() == 0 {
        Seq::empty()
    } else {
        let r = types_of(ms.drop_last());
        let cs = ms.last().captures@;
        if ms.last().pattern_index == 0 {
            let n = last_text(cs, "type.name"@);
            if n.len() > 0 {
                r.push(
                    (
                        n,
                        SymbolKind::ENUM,
                        last_range(cs, "type.declaration"@),
                        custom_type_signature(n, texts_named(cs, "variant.name"@)),
                    ),
                )
            } else {
                r
            }
        } else if ms.last().pattern_index == 1 {
            let n = last_text(cs, "alias.name"@);
            if n.len() > 0 {
                r.push((n, SymbolKind::STRUCT, last_range(cs, "alias.declaration"@), "type alias "@ + n))
            } else {
                r
            }
        } else {
            r
        }
    }
}

/// Every type found has a name; a custom type is an enum whose signature
/// reads `type T`, followed by ` = ` and its variants when it has any; a
/// type alias is a struct whose signature reads `type alias T`.  One type is
/// found per match of either pattern that names it.
pub proof fn law_types_found(ms: Seq<QueryMatch>)
    ensures
        forall|i: int| 0 <= i < types_of(ms).len() ==> {
            let (n, k, _r, sig) = #[trigger] types_of(ms)[i];
            &&& n.len() > 0
            &&& (k == SymbolKind::ENUM && (sig == "type "@ + n || starts_with(sig, "type "@ + n + " = "@)))
                || (k == SymbolKind::STRUCT && sig == "type alias "@ + n)
        },
        types_of(ms).len() == ms.filter(
            |m: QueryMatch|
                (m.pattern_index == 0 && last_text(m.captures@, "type.name"@).len() > 0) || (m.pattern_index == 1
                    && last_text(m.captures@, "alias.name"@).len() > 0),
        ).len(),
    decreases ms.len(),
{
    reveal_with_fuel(Seq::filter, 1);
    if ms.len() > 0 {
        let t = ms.drop_last();
        law_types_found(t);
        let r = types_of(ms);
        let cs = ms.last().captures@;
        assert forall|i: int| 0 <= i < r.len() implies {
            let (n, k, _r, sig) = #[trigger] r[i];
            &&& n.len() > 0
            &&& (k == SymbolKind::ENUM && (sig == "type "@ + n || starts_with(sig, "type "@ + n + " = "@)))
                || (k == SymbolKind::STRUCT && sig == "type alias "@ + n)
        } by {
            if i < types_of(t).len() {
                assert(r[i] == types_of(t)[i]);
            } else if ms.last().pattern_index == 0 {
                let n = last_text(cs, "type.name"@);
                let vs = texts_named(cs, "variant.name"@);
                if vs.len() > 0 {
                    let sig = "type "@ + n + " = "@ + join_text(vs, " | "@);
                    assert(sig.take(("type "@ + n + " = "@).len() as int) =~= "type "@ + n + " = "@);
                }
            }
        }
    } else {
        assert(ms.filter(
            |m: QueryMatch|
                (m.pattern_index == 0 && last_text(m.captures@, "type.name"@).len() > 0) || (m.pattern_index == 1
                    && last_text(m.captures@, "alias.name"@).len() > 0),
        ) =~= Seq::<QueryMatch>::empty());
    }
}

/// The types the matches of the type query declare (see `types_of`), in the
/// module `container`, each with its signature.
pub fn extract_types(uri: &str, type_matches: &Vec<QueryMatch>, container: Option<&str>) -> (r: Vec<Symbol>)
    ensures
        r@.len() == types_of(type_matches@).len(),
        forall|i: int|
            0 <= i < r@.len() ==> symbol_is(
                #[trigger] r@[i],
                types_of(type_matches@)[i].0,
                types_of(type_matches@)[i].1,
                uri@,
                types_of(type_matches@)[i].2,
                opt_view(container),
                Some(types_of(type_matches@)[i].3),
            ),
{
    let ms = type_matches;
    let mut out: Vec<Symbol> = Vec::new();
    let mut j: usize = 0;
    assert(ms@.take(0) =~= Seq::<QueryMatch>::empty());
    while j < ms.len()
        invariant
            0 <= j <= ms@.len(),
            out@.len() == types_of(ms@.take(j as int)).len(),
            forall|i: int|
                0 <= i < out@.len() ==> symbol_is(
                    #[trigger] out@[i],
                    types_of(ms@.take(j as int))[i].0,
                    types_of(ms@.take(j as int))[i].1,
                    uri@,
                    types_of(ms@.take(j as int))[i].2,
                    opt_view(container),
                    Some(types_of(ms@.take(j as int))[i].3),
                ),
        decreases ms.len() - j,
    {
        assert(ms@.take(j + 1).drop_last() =~= ms@.take(j as int));
        assert(ms@.take(j + 1).last() == ms@[j as int]);
        proof {
            reveal_strlit("type.name");
            reveal_strlit("type.declaration");
            reveal_strlit("variant.name");
            reveal_strlit("alias.name");
            reveal_strlit("alias.declaration");
            reveal_strlit("type ");
            reveal_strlit(" = ");
            reveal_strlit(" | ");
            reveal_strlit("type alias ");
        }
        let cs = &ms[j].captures;
        let ghost prev = out@;
        if ms[j].pattern_index == 0 {
            let name = last_text_of(cs, "type.name");
            if !name.as_str().is_empty() {
                let range = last_range_of(cs, "type.declaration");
                let variants = all_texts_of(cs, "variant.name");
                let mut sig = "type ".to_string();
                sig.append(name.as_str());
                if variants.len() > 0 {
                    sig.append(" = ");
                    let joined = join_strings_with(&variants, " | ");
                    sig.append(joined.as_str());
                }
                let s = Symbol::new(name, SymbolKind::ENUM, uri, range, opt_string(container), Some(sig), None);
                out.push(s);
            }
        } else if ms[j].pattern_index == 1 {
            let name = last_text_of(cs, "alias.name");
            if !name.as_str().is_empty() {
                let range = last_range_of(cs, "alias.declaration");
                let mut sig = "type alias ".to_string();
                sig.append(name.as_str());
                let s = Symbol::new(name, SymbolKind::STRUCT, uri, range, opt_string(container), Some(sig), None);
                out.push(s);
            }
        }
        assert(forall|k: int| 0 <= k < prev.len() ==> out@[k] == prev[k]);
        j = j + 1;
    }
    assert(ms@.take(ms@.len() as int) =~= ms@);
    out
}

/// The named declarations of the matches, in order: the last capture named
/// `name_capture` gives the name, the last named `range_capture` the range;
/// matches without a name give nothing.
pub open spec fn named_of(ms: Seq<QueryMatch>, name_capture: Seq<char>, range_capture: Seq<char>) -> Seq<(Seq<char>, Range)>
    decreases ms.len(),
{
    if ms.len() == 0 {
        Seq::empty()
    } else {
        let r = named_of(ms.drop_last(), name_capture, range_capture);
        let cs = ms.last().captures@;
        let n = last_text(cs, name_capture);
        if n.len() > 0 {
            r.push((n, last_range(cs, range_capture)))
        } else {
            r
        }
    }
}

fn named_symbols(
    uri: &str,
    ms: &Vec<QueryMatch>,
    name_capture: &str,
    range_capture: &str,
    kind: SymbolKind,
    container: Option<&str>,
) -> (r: Vec<Symbol>)
    ensures
        r@.len() == named_of(ms@, name_capture@, range_capture@).len(),
        forall|i: int|
            0 <= i < r@.len() ==> symbol_is(
                #[trigger] r@[i],
                named_of(ms@, name_capture@, range_capture@)[i].0,
                kind,
                uri@,
                named_of(ms@, name_capture@, range_capture@)[i].1,
                opt_view(container),
                None,
            ),
{
    let mut out: Vec<Symbol> = Vec::new();
    let mut j: usize = 0;
    assert(ms@.take(0) =~= Seq::<QueryMatch>::empty());
    while j < ms.len()
        invariant
            0 <= j <= ms@.len(),
            out@.len() == named_of(ms@.take(j as int), name_capture@, range_capture@).len(),
            forall|i: int|
                0 <= i < out@.len() ==> symbol_is(
                    #[trigger] out@[i],
                    named_of(ms@.take(j as int), name_capture@, range_capture@)[i].0,
                    kind,
                    uri@,
                    named_of(ms@.take(j as int), name_capture@, range_capture@)[i].1,
                    opt_view(container),
                    None,
                ),
        decreases ms.len() - j,
    {
        assert(ms@.take(j + 1).drop_last() =~= ms@.take(j as int));
        assert(ms@.take(j + 1).last() == ms@[j as int]);
        let cs = &ms[j].captures;
        let ghost prev = out@;
        let name = last_text_of(cs, name_capture);
        if !name.as_str().is_empty() {
            let range = last_range_of(cs, range_capture);
            let s = Symbol::new(name, kind, uri, range, opt_string(container), None, None);
            out.push(s);
        }
        assert(forall|k: int| 0 <= k < prev.len() ==> out@[k] == prev[k]);
        j = j + 1;
    }
    assert(ms@.take(ms@.len() as int) =~= ms@);
    out
}

/// The constants the matches of the constant query declare, in the module
/// `container`.
pub fn extract_constants(uri: &str, constant_matches: &Vec<QueryMatch>, container: Option<&str>) -> (r: Vec<Symbol>)
    ensures
        r@.len() == named_of(constant_matches@, "constant.name"@, "constant.declaration"@).len(),
        forall|i: int|
            0 <= i < r@.len() ==> symbol_is(
                #[trigger] r@[i],
                named_of(constant_matches@, "constant.name"@, "constant.declaration"@)[i].0,
                SymbolKind::CONSTANT,
                uri@,
                named_of(constant_matches@, "constant.name"@, "constant.declaration"@)[i].1,
                opt_view(container),
                None,
            ),
{
    named_symbols(uri, constant_matches, "constant.name", "constant.declaration", SymbolKind::CONSTANT, container)
}

/// The module declarations of the matches of the module query, as module
/// symbols without a container.
pub fn extract_module(uri: &str, module_matches: &Vec<QueryMatch>) -> (r: Vec<Symbol>)
    ensures
        r@.len() == named_of(module_matches@, "module.name"@, "module.declaration"@).len(),
        forall|i: int|
            0 <= i < r@.len() ==> symbol_is(
                #[trigger] r@[i],
                named_of(module_matches@, "module.name"@, "module.declaration"@)[i].0,
                SymbolKind::MODULE,
                uri@,
                named_of(module_matches@, "module.name"@, "module.declaration"@)[i].1,
                None,
                None,
            ),
{
    named_symbols(uri, module_matches, "module.name", "module.declaration", SymbolKind::MODULE, None)
}

/// The matches of each of the symbol queries over one document.
#[derive(Debug, Clone)]
pub struct SymbolMatches {
    pub function_matches: Vec<QueryMatch>,
    pub type_matches: Vec<QueryMatch>,
    pub constant_matches: Vec<QueryMatch>,
    pub module_matches: Vec<QueryMatch>,
}

/// All symbols of a document: its functions, types and constants, in the
/// module its declaration names, then the module itself.
pub fn extract_symbols(uri: &str, matches: &SymbolMatches) -> (r: Vec<Symbol>)
    ensures
        ({
            let m = module_name_in(matches.module_matches@);
            let fs = functions_of(matches.function_matches@, annotations_of(matches.function_matches@));
            let ts = types_of(matches.type_matches@);
            let cs = named_of(matches.constant_matches@, "constant.name"@, "constant.declaration"@);
            let ds = named_of(matches.module_matches@, "module.name"@, "module.declaration"@);
            &&& r@.len() == fs.len() + ts.len() + cs.len() + ds.len()
            &&& symbols_are(r@.take(fs.len() as int), fs, SymbolKind::FUNCTION, uri@, m)
            &&& forall|i: int|
                0 <= i < ts.len() ==> symbol_is(
                    #[trigger] r@[fs.len() + i],
                    ts[i].0,
                    ts[i].1,
                    uri@,
                    ts[i].2,
                    m,
                    Some(ts[i].3),
                )
            &&& forall|i: int|
                0 <= i < cs.len() ==> symbol_is(
                    #[trigger] r@[fs.len() + ts.len() + i],
                    cs[i].0,
                    SymbolKind::CONSTANT,
                    uri@,
                    cs[i].1,
                    m,
                    None,
                )
            &&& forall|i: int|
                0 <= i < ds.len() ==> symbol_is(
                    #[trigger] r@[fs.len() + ts.len() + cs.len() + i],
                    ds[i].0,
                    SymbolKind::MODULE,
                    uri@,
                    ds[i].1,
                    None,
                    None,
                )
        }),
{
    let module_name = extract_module_name(&matches.module_matches);
    let container: Option<&str> = match &module_name {
        Some(n) => Some(n.as_str()),
        None => None,
    };
    let mut out = extract_functions(uri, &matches.function_matches, container);
    let ghost a = out@;
    let mut ts = extract_types(uri, &matches.type_matches, container);
    let ghost b = ts@;
    out.append(&mut ts);
    let mut cs = extract_constants(uri, &matches.constant_matches, container);
    let ghost c = cs@;
    out.append(&mut cs);
    let mut ds = extract_module(uri, &matches.module_matches);
    let ghost d = ds@;
    out.append(&mut ds);
    proof {
        assert(out@ == a + b + c + d);
        assert(out@.take(a.len() as int) =~= a);
        assert forall|i: int| 0 <= i < b.len() implies #[trigger] out@[a.len() + i] == b[i] by {}
        assert forall|i: int| 0 <= i < c.len() implies #[trigger] out@[a.len() + b.len() + i] == c[i] by {}
        assert forall|i: int| 0 <= i < d.len() implies #[trigger] out@[a.len() + b.len() + c.len() + i] == d[i] by {}
    }
    out
}

/// A captured reference is kept: its text is not blank and does not start
/// with `_`.
pub open spec fn kept_reference(text: Seq<char>) -> bool {
    trim(text).len() > 0 && !(text.len() > 0 && text[0] == '_')
}

/// The kind of a captured reference: a declaration for `ref.declaration`,
/// a use otherwise.
pub open spec fn reference_kind_of(capture_name: Seq<char>) -> ReferenceKind {
    if capture_name == "ref.declaration"@ {
        ReferenceKind::Declaration
    } else {
        ReferenceKind::Usage
    }
}

/// The references of the captures, in order: text, range and kind.
pub open spec fn references_of(cs: Seq<QueryCapture>) -> Seq<(Seq<char>, Range, ReferenceKind)>
    decreases cs.len(),
{
    if cs.len() == 0 {
        Seq::empty()
    } else {
        let r = references_of(cs.drop_last());
        let c = cs.last();
        if kept_reference(c.text@) {
            r.push((c.text@, capture_range(c), reference_kind_of(c.name@)))
        } else {
            r
        }
    }
}

/// The references of a document are, in order, the captures whose text is
/// not blank and does not start with `_`, each at its capture's range, a
/// declaration exactly when captured as `ref.declaration`.
pub proof fn law_references_kept(cs: Seq<QueryCapture>)
    ensures
        references_of(cs) == cs.filter(
            |c: QueryCapture| trim(c.text@).len() > 0 && !(c.text@.len() > 0 && c.text@[0] == '_'),
        ).map_values(
            |c: QueryCapture|
                (
                    c.text@,
                    capture_range(c),
                    if c.name@ == "ref.declaration"@ {
                        ReferenceKind::Declaration
                    } else {
                        ReferenceKind::Usage
                    },
                ),
        ),
    decreases cs.len(),
{
    reveal_with_fuel(Seq::filter, 1);
    let f = |c: QueryCapture| trim(c.text@).len() > 0 && !(c.text@.len() > 0 && c.text@[0] == '_');
    let g = |c: QueryCapture|
        (
            c.text@,
            capture_range(c),
            if c.name@ == "ref.declaration"@ {
                ReferenceKind::Declaration
            } else {
                ReferenceKind::Usage
            },
        );
    if cs.len() > 0 {
        law_references_kept(cs.drop_last());
        let h = cs.drop_last().filter(f);
        assert(h.push(cs.last()).map_values(g) =~= h.map_values(g).push(g(cs.last())));
    } else {
        assert(cs.filter(f) =~= Seq::<QueryCapture>::empty());
    }
}

/// The references of a document, from the captures of the reference query.
pub fn extract_references(uri: &str, captures: &Vec<QueryCapture>) -> (r: Vec<SymbolReference>)
    ensures
        r@.len() == references_of(captures@).len(),
        forall|i: int|
            0 <= i < r@.len() ==> {
                let (t, range, k) = references_of(captures@)[i];
                &&& (#[trigger] r@[i]).id is None
                &&& r@[i].symbol_name@ == t
                &&& r@[i].uri@ == uri@
                &&& r@[i].range_start_line == range.start.line as i32
                &&& r@[i].range_start_char == range.start.character as i32
                &&& r@[i].range_end_line == range.end.line as i32
                &&& r@[i].range_end_char == range.end.character as i32
                &&& r@[i].reference_kind@ == crate::symbols::reference_kind_text(k)
                &&& r@[i].created_at is None
            },
{
    let cs = captures;
    let mut out: Vec<SymbolReference> = Vec::new();
    let mut j: usize = 0;
    assert(cs@.take(0) =~= Seq::<QueryCapture>::empty());
    while j < cs.len()
        invariant
            0 <= j <= cs@.len(),
            out@.len() == references_of(cs@.take(j as int)).len(),
            forall|i: int|
                0 <= i < out@.len() ==> {
                    let (t, range, k) = references_of(cs@.take(j as int))[i];
                    &&& (#[trigger] out@[i]).id is None
                    &&& out@[i].symbol_name@ == t
                    &&& out@[i].uri@ == uri@
                    &&& out@[i].range_start_line == range.start.line as i32
                    &&& out@[i].range_start_char == range.start.character as i32
                    &&& out@[i].range_end_line == range.end.line as i32
                    &&& out@[i].range_end_char == range.end.character as i32
                    &&& out@[i].reference_kind@ == crate::symbols::reference_kind_text(k)
                    &&& out@[i].created_at is None
                },
        decreases cs.len() - j,
    {
        assert(cs@.take(j + 1).drop_last() =~= cs@.take(j as int));
        assert(cs@.take(j + 1).last() == cs@[j as int]);
        let c = &cs[j];
        let text = chars_of(c.text.as_str());
        let t = trim_chars(text.as_slice());
        let ghost prev = out@;
        if t.len() > 0 && !(text.len() > 0 && text[0] == '_') {
            proof {
                reveal_strlit("ref.declaration");
            }
            let kind = if str_equal(c.name.as_str(), "ref.declaration") {
                ReferenceKind::Declaration
            } else {
                ReferenceKind::Usage
            };
            let rf = SymbolReference::new(c.text.clone(), uri, range_of(c), kind);
            out.push(rf);
        }
        assert(forall|k: int| 0 <= k < prev.len() ==> out@[k] == prev[k]);
        j = j + 1;
    }
    assert(cs@.take(cs@.len() as int) =~= cs@);
    out
}

/// A capture of the import query, with the import clause it lies in.
#[derive(Debug, Clone)]
pub struct ImportCapture {
    /// Which import clause of the document holds the captured node.
    pub clause: usize,
    pub name: String,
    pub text: String,
}

/// An import of a document, as the parser reads it.
#[derive(Debug, Clone)]
pub struct ImportInfo {
    pub source_uri: String,
    pub imported_module: String,
    pub imported_symbols: Option<Vec<String>>,
    pub alias_name: Option<String>,
    pub exposing_all: bool,
}

impl ImportInfo {
    /// An import of `imported_module` in the document `source_uri`.
    pub fn new(
        source_uri: &str,
        imported_module: String,
        imported_symbols: Option<Vec<String>>,
        alias_name: Option<String>,
        exposing_all: bool,
    ) -> (r: ImportInfo)
        ensures
            r.source_uri@ == source_uri@,
            r.imported_module == imported_module,
            r.imported_symbols == imported_symbols,
            r.alias_name == alias_name,
            r.exposing_all == exposing_all,
    {
        ImportInfo { source_uri: source_uri.to_string(), imported_module, imported_symbols, alias_name, exposing_all }
    }
}

/// What the captures of one import clause say: its module, alias, exposed
/// names and whether it exposes everything.
pub struct ClauseModel {
    pub clause: usize,
    pub module: Seq<char>,
    pub alias: Option<Seq<char>>,
    pub names: Seq<Seq<char>>,
    pub all: bool,
}

/// A capture's contribution to its clause.
pub open spec fn with_capture(g: ClauseModel, c: ImportCapture) -> ClauseModel {
    if c.name@ == "import.module"@ {
        ClauseModel { module: c.text@, ..g }
    } else if c.name@ == "import.alias"@ {
        ClauseModel { alias: Some(c.text@), ..g }
    } else if c.name@ == "import.value"@ || c.name@ == "import.type"@ {
        ClauseModel { names: g.names.push(c.text@), ..g }
    } else if c.name@ == "import.all"@ {
        ClauseModel { all: true, ..g }
    } else {
        g
    }
}

/// Where the clause is among the groups, or -1.
pub open spec fn clause_index(gs: Seq<ClauseModel>, clause: usize) -> int
    decreases gs.len(),
{
    if gs.len() == 0 {
        -1
    } else if clause_index(gs.drop_last(), clause) >= 0 {
        clause_index(gs.drop_last(), clause)
    } else if gs.last().clause == clause {
        gs.len() - 1
    } else {
        -1
    }
}

/// The captures grouped by clause, the clauses in the order first met.
pub open spec fn clauses_of(cs: Seq<ImportCapture>) -> Seq<ClauseModel>
    decreases cs.len(),
{
    if cs.len() == 0 {
        Seq::empty()
    } else {
        let gs = clauses_of(cs.drop_last());
        let c = cs.last();
        let i = clause_index(gs, c.clause);
        if i >= 0 {
            gs.update(i, with_capture(gs[i], c))
        } else {
            gs.push(with_capture(ClauseModel { clause: c.clause, module: Seq::empty(), alias: None, names: Seq::empty(), all: false }, c))
        }
    }
}

/// The clauses that name a module, in order.
pub open spec fn named_clauses(gs: Seq<ClauseModel>) -> Seq<ClauseModel>
    decreases gs.len(),
{
    if gs.len() == 0 {
        Seq::empty()
    } else if gs.last().module.len() > 0 {
        named_clauses(gs.drop_last()).push(gs.last())
    } else {
        named_clauses(gs.drop_last())
    }
}

/// The import made of a clause.
pub open spec fn import_is(i: ImportInfo, g: ClauseModel, uri: Seq<char>) -> bool {
    &&& i.source_uri@ == uri
    &&& i.imported_module@ == g.module
    &&& (g.names.len() == 0 ==> i.imported_symbols is None)
    &&& (g.names.len() > 0 ==> (i.imported_symbols matches Some(v) && string_texts(v@) == g.names))
    &&& (i.alias_name is Some <==> g.alias is Some)
    &&& (i.alias_name matches Some(a) ==> g.alias == Some(a@))
    &&& i.exposing_all == g.all
}

struct ClauseBuilder {
    clause: usize,
    module: String,
    alias: Option<String>,
    names: Vec<String>,
    all: bool,
}

spec fn builder_model(b: ClauseBuilder) -> ClauseModel {
    ClauseModel {
        clause: b.clause,
        module: b.module@,
        alias: match b.alias {
            Some(a) => Some(a@),
            None => None,
        },
        names: string_texts(b.names@),
        all: b.all,
    }
}

spec fn builder_models(v: Seq<ClauseBuilder>) -> Seq<ClauseModel> {
    v.map_values(|b: ClauseBuilder| builder_model(b))
}

fn apply_capture(b: &mut ClauseBuilder, c: &ImportCapture)
    ensures
        builder_model(*final(b)) == with_capture(builder_model(*old(b)), *c),
{
    proof {
        reveal_strlit("import.module");
        reveal_strlit("import.alias");
        reveal_strlit("import.value");
        reveal_strlit("import.type");
        reveal_strlit("import.all");
    }
    if str_equal(c.name.as_str(), "import.module") {
        b.module = c.text.clone();
    } else if str_equal(c.name.as_str(), "import.alias") {
        b.alias = Some(c.text.clone());
    } else if str_equal(c.name.as_str(), "import.value") || str_equal(c.name.as_str(), "import.type") {
        let ghost before = b.names@;
        b.names.push(c.text.clone());
        assert(string_texts(b.names@) =~= string_texts(before).push(c.text@));
    } else if str_equal(c.name.as_str(), "import.all") {
        b.all = true;
    }
}

fn find_clause(gs: &Vec<ClauseBuilder>, clause: usize) -> (r: Option<usize>)
    ensures
        r matches Some(i) ==> i == clause_index(builder_models(gs@), clause) && i < gs@.len(),
        r is None ==> clause_index(builder_models(gs@), clause) == -1,
{
    let mut i: usize = 0;
    assert(builder_models(gs@).take(0) =~= Seq::<ClauseModel>::empty());
    while i < gs.len()
        invariant
            0 <= i <= gs@.len(),
            clause_index(builder_models(gs@).take(i as int), clause) == -1,
        decreases gs.len() - i,
    {
        assert(builder_models(gs@).take(i + 1).drop_last() =~= builder_models(gs@).take(i as int));
        if gs[i].clause == clause {
            proof {
                lemma_clause_index_extends(builder_models(gs@), clause, i + 1);
            }
            return Some(i);
        }
        i = i + 1;
    }
    assert(builder_models(gs@).take(gs@.len() as int) =~= builder_models(gs@));
    None
}

proof fn lemma_clause_index_extends(gs: Seq<ClauseModel>, clause: usize, n: int)
    requires
        0 < n <= gs.len(),
        clause_index(gs.take(n), clause) >= 0,
    ensures
        clause_index(gs, clause) == clause_index(gs.take(n), clause),
    decreases gs.len() - n,
{
    if n < gs.len() {
        assert(gs.take(n + 1).drop_last() =~= gs.take(n));
        lemma_clause_index_extends(gs, clause, n + 1);
    } else {
        assert(gs.take(n) =~= gs);
    }
}

/// The imports of a document, from the captures of the import query: the
/// captures grouped by clause (in the order the clauses are first met), each
/// clause that names a module an import.
pub fn extract_imports(uri: &str, captures: &Vec<ImportCapture>) -> (r: Vec<ImportInfo>)
    ensures
        r@.len() == named_clauses(clauses_of(captures@)).len(),
        forall|i: int|
            0 <= i < r@.len() ==> import_is(#[trigger] r@[i], named_clauses(clauses_of(captures@))[i], uri@),
{
    let cs = captures;
    let mut groups: Vec<ClauseBuilder> = Vec::new();
    let mut j: usize = 0;
    assert(cs@.take(0) =~= Seq::<ImportCapture>::empty());
    assert(builder_models(groups@) =~= Seq::<ClauseModel>::empty());
    while j < cs.len()
        invariant
            0 <= j <= cs@.len(),
            builder_models(groups@) == clauses_of(cs@.take(j as int)),
        decreases cs.len() - j,
    {
        assert(cs@.take(j + 1).drop_last() =~= cs@.take(j as int));
        assert(cs@.take(j + 1).last() == cs@[j as int]);
        let c = &cs[j];
        let ghost before = builder_models(groups@);
        match find_clause(&groups, c.clause) {
            Some(k) => {
                let mut g = groups.remove(k);
                apply_capture(&mut g, c);
                groups.insert(k, g);
                assert(builder_models(groups@) =~= before.update(k as int, with_capture(before[k as int], *c)));
            },
            None => {
                let e = String::new();
                assert(e@ =~= Seq::<char>::empty());
                let mut g = ClauseBuilder { clause: c.clause, module: e, alias: None, names: Vec::new(), all: false };
                assert(string_texts(g.names@) =~= Seq::<Seq<char>>::empty());
                assert(builder_model(g) == ClauseModel { clause: c.clause, module: Seq::empty(), alias: None, names: Seq::empty(), all: false });
                apply_capture(&mut g, c);
                groups.push(g);
                assert(builder_models(groups@) =~= before.push(builder_model(g)));
            },
        }
        j = j + 1;
    }
    assert(cs@.take(cs@.len() as int) =~= cs@);
    let ghost all = builder_models(groups@);
    let n = groups.len();
    let mut rest = groups;
    let mut out: Vec<ImportInfo> = Vec::new();
    let mut i: usize = 0;
    let ghost gs = rest@;
    assert(all.take(0) =~= Seq::<ClauseModel>::empty());
    while rest.len() > 0
        invariant
            gs.len() == n,
            all == builder_models(gs),
            0 <= i <= n,
            rest.len() == n - i,
            rest@ == gs.skip(i as int),
            out@.len() == named_clauses(all.take(i as int)).len(),
            forall|k: int| 0 <= k < out@.len() ==> import_is(#[trigger] out@[k], named_clauses(all.take(i as int))[k], uri@),
        decreases rest.len(),
    {
        let g = rest.remove(0);
        assert(g == gs[i as int]);
        assert(rest@ =~= gs.skip(i + 1));
        assert(all.take(i + 1).drop_last() =~= all.take(i as int));
        assert(all.take(i + 1).last() == builder_model(g));
        let ghost prev = out@;
        if !g.module.as_str().is_empty() {
            let symbols = if g.names.len() == 0 {
                None
            } else {
                Some(g.names)
            };
            let imp = ImportInfo::new(uri, g.module, symbols, g.alias, g.all);
            out.push(imp);
        }
        assert(forall|k: int| 0 <= k < prev.len() ==> out@[k] == prev[k]);
        i = i + 1;
    }
    assert(all.take(n as int) =~= all);
    out
}

} // verus!

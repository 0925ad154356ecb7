//! What hovering over a symbol shows: the symbol chosen among the indexed
//! ones, the module it comes from, type annotations and documentation
//! comments found in the document, and the hover's content.
use vstd::prelude::*;
use vstd::string::*;
use crate::line_scan::{
    contains_text, ends_with, has_prefix, has_suffix, starts_with, str_contains, trim, trim_chars,
    trim_start, trim_start_chars,
};
use crate::module_rename::{file_path_of, uri_file_path};
use crate::ordering::str_equal;
use crate::paths::{file_name_of_path, path_file_name, stem, stem_of};
use crate::protocol::{Position, Range};
use crate::search::copy_symbol;
use crate::symbols::Symbol;
use crate::text::{chars_of, string_from_chars};

verus! {

/// What a hover shows of a symbol.
#[derive(Debug, Clone)]
pub struct HoverInfo {
    /// The type signature, when known.
    pub type_info: Option<String>,
    /// The documentation comment, when there is one.
    pub documentation: Option<String>,
    /// The module an imported symbol comes from.
    pub source_module: Option<String>,
    /// The range of the hovered symbol.
    pub range: Range,
    pub symbol_name: String,
}

/// Syntax node kinds that name something a hover can describe.
pub open spec fn hoverable_kind(kind: Seq<char>) -> bool {
    kind == "lower_case_identifier"@ || kind == "upper_case_identifier"@ || kind
        == "type_identifier"@ || kind == "value_identifier"@ || kind == "operator_identifier"@
}

/// Whether a node of this kind can be hovered.
pub fn is_hoverable_node(kind: &str) -> (r: bool)
    ensures
        r == hoverable_kind(kind@),
{
    str_equal(kind, "lower_case_identifier") || str_equal(kind, "upper_case_identifier")
        || str_equal(kind, "type_identifier") || str_equal(kind, "value_identifier") || str_equal(
        kind,
        "operator_identifier",
    )
}

/// Where the first symbol of the file `uri` is among the candidates, or -1.
pub open spec fn first_in_file(symbols: Seq<Symbol>, uri: Seq<char>) -> int
    decreases symbols.len(),
{
    if symbols.len() == 0 {
        -1
    } else if first_in_file(symbols.drop_last(), uri) >= 0 {
        first_in_file(symbols.drop_last(), uri)
    } else if symbols.last().uri@ == uri {
        symbols.len() - 1
    } else {
        -1
    }
}

/// The symbol a hover describes among candidates of the same name: the first
/// one of the current file, else the first one.
pub open spec fn best_symbol_index(symbols: Seq<Symbol>, uri: Seq<char>) -> int {
    if symbols.len() == 0 {
        -1
    } else if first_in_file(symbols, uri) >= 0 {
        first_in_file(symbols, uri)
    } else {
        0
    }
}

proof fn lemma_first_in_file(symbols: Seq<Symbol>, uri: Seq<char>, n: int)
    requires
        0 <= n <= symbols.len(),
        forall|j: int| 0 <= j < n ==> symbols[j].uri@ != uri,
    ensures
        first_in_file(symbols.take(n), uri) == -1,
        n < symbols.len() && symbols[n].uri@ == uri ==> first_in_file(symbols, uri) == n,
        n == symbols.len() ==> first_in_file(symbols, uri) == -1,
    decreases symbols.len() - n,
{
    lemma_first_in_file_prefix(symbols, uri, n);
    if n < symbols.len() && symbols[n].uri@ == uri {
        assert(symbols.take(n + 1).drop_last() =~= symbols.take(n));
        lemma_first_in_file_extends(symbols, uri, n + 1);
    }
    if n == symbols.len() {
        assert(symbols.take(n) =~= symbols);
    }
}

proof fn lemma_first_in_file_prefix(symbols: Seq<Symbol>, uri: Seq<char>, n: int)
    requires
        0 <= n <= symbols.len(),
        forall|j: int| 0 <= j < n ==> symbols[j].uri@ != uri,
    ensures
        first_in_file(symbols.take(n), uri) == -1,
    decreases n,
{
    if n > 0 {
        assert(symbols.take(n).drop_last() =~= symbols.take(n - 1));
        lemma_first_in_file_prefix(symbols, uri, n - 1);
    }
}

proof fn lemma_first_in_file_extends(symbols: Seq<Symbol>, uri: Seq<char>, n: int)
    requires
        0 < n <= symbols.len(),
        first_in_file(symbols.take(n), uri) >= 0,
    ensures
        first_in_file(symbols, uri) == first_in_file(symbols.take(n), uri),
    decreases symbols.len() - n,
{
    if n < symbols.len() {
        assert(symbols.take(n + 1).drop_last() =~= symbols.take(n));
        lemma_first_in_file_extends(symbols, uri, n + 1);
    } else {
        assert(symbols.take(n) =~= symbols);
    }
}

proof fn lemma_first_in_file_is_first(symbols: Seq<Symbol>, uri: Seq<char>)
    ensures
        -1 <= first_in_file(symbols, uri) < symbols.len(),
        first_in_file(symbols, uri) >= 0 ==> symbols[first_in_file(symbols, uri)].uri@ == uri,
        forall|k: int| 0 <= k < first_in_file(symbols, uri) ==> (#[trigger] symbols[k]).uri@ != uri,
        first_in_file(symbols, uri) == -1 ==> forall|k: int| 0 <= k < symbols.len() ==> (#[trigger] symbols[k]).uri@ != uri,
    decreases symbols.len(),
{
    if symbols.len() > 0 {
        let t = symbols.drop_last();
        lemma_first_in_file_is_first(t, uri);
        assert forall|k: int| 0 <= k < t.len() implies t[k] == symbols[k] by {}
    }
}

/// Hover prefers the current file: when some candidate lies in the file
/// `uri`, the symbol described is the first candidate of that file; when
/// none does, it is the first candidate; with no candidates there is none.
pub proof fn law_hover_prefers_current_file(symbols: Seq<Symbol>, uri: Seq<char>)
    ensures
        symbols.len() == 0 <==> best_symbol_index(symbols, uri) == -1,
        (exists|j: int| 0 <= j < symbols.len() && (#[trigger] symbols[j]).uri@ == uri) ==> {
            let b = best_symbol_index(symbols, uri);
            &&& 0 <= b < symbols.len()
            &&& symbols[b].uri@ == uri
            &&& forall|k: int| 0 <= k < b ==> (#[trigger] symbols[k]).uri@ != uri
        },
        symbols.len() > 0 && (forall|j: int| 0 <= j < symbols.len() ==> (#[trigger] symbols[j]).uri@ != uri)
            ==> best_symbol_index(symbols, uri) == 0,
{
    lemma_first_in_file_is_first(symbols, uri);
}

/// The symbol a hover describes: the first candidate of the current file,
/// else the first candidate; none without candidates.
pub fn find_best_matching_symbol(symbols: &Vec<Symbol>, file_uri: &str) -> (r: Option<Symbol>)
    ensures
        best_symbol_index(symbols@, file_uri@) == -1 <==> r is None,
        r matches Some(s) ==> s == symbols@[best_symbol_index(symbols@, file_uri@)],
{
    if symbols.len() == 0 {
        return None;
    }
    let mut i: usize = 0;
    while i < symbols.len()
        invariant
            0 <= i <= symbols@.len(),
            forall|j: int| 0 <= j < i ==> symbols@[j].uri@ != file_uri@,
        decreases symbols.len() - i,
    {
        if str_equal(symbols[i].uri.as_str(), file_uri) {
            proof {
                lemma_first_in_file(symbols@, file_uri@, i as int);
            }
            return Some(copy_symbol(&symbols[i]));
        }
        i = i + 1;
    }
    proof {
        lemma_first_in_file(symbols@, file_uri@, i as int);
    }
    Some(copy_symbol(&symbols[0]))
}

/// What std's `char::to_uppercase` makes of a character (Unicode uppercase
/// mapping, possibly several characters).
pub uninterp spec fn uppercase_of(c: char) -> Seq<char>;

/// std's `char::to_uppercase`, collected.  Stated: the result depends on the
/// character alone, and an ASCII lowercase letter becomes its capital.
#[verifier::external_body]
fn char_to_uppercase(c: char) -> (r: String)
    ensures
        r@ == uppercase_of(c),
        'a' <= c && c <= 'z' ==> r@ == seq![((c as u32) - 32) as char],
{
    c.to_uppercase().collect()
}

/// A file stem as a module name: its first character in upper case; `M` for
/// an empty stem.
pub open spec fn capitalized(stem: Seq<char>) -> Seq<char> {
    if stem.len() == 0 {
        uppercase_of('M')
    } else {
        uppercase_of(stem[0]) + stem.skip(1)
    }
}

/// The module an indexed symbol comes from, as a hover names it: none for a
/// symbol of the current file; else the stem of its file's name, capitalized
/// (none when its URI is no file URL).
pub open spec fn source_module_of(symbol_uri: Seq<char>, current_file: Seq<char>) -> Option<Seq<char>> {
    if symbol_uri == current_file {
        None
    } else {
        match file_path_of(symbol_uri) {
            Some(p) => match path_file_name(p) {
                Some(f) => Some(capitalized(stem_of(f))),
                None => None,
            },
            None => None,
        }
    }
}

/// A hover names no source module for a symbol of the current file, nor for
/// one whose URI is no file URL; for a symbol of another file it names the
/// file's stem with its first character in upper case.
pub proof fn law_source_module(symbol_uri: Seq<char>, current_file: Seq<char>, path: Seq<char>, file_name: Seq<char>)
    ensures
        symbol_uri == current_file ==> source_module_of(symbol_uri, current_file) is None,
        file_path_of(symbol_uri) is None ==> source_module_of(symbol_uri, current_file) is None,
        symbol_uri != current_file && file_path_of(symbol_uri) == Some(path) && path_file_name(path) == Some(
            file_name,
        ) && stem_of(file_name).len() > 0 ==> source_module_of(symbol_uri, current_file) == Some(
            uppercase_of(stem_of(file_name)[0]) + stem_of(file_name).skip(1),
        ),
{
}

/// The module an indexed symbol comes from (see `source_module_of`).
pub fn determine_source_module(symbol: &Symbol, current_file: &str) -> (r: Option<String>)
    ensures
        r is Some <==> source_module_of(symbol.uri@, current_file@) is Some,
        r matches Some(m) ==> source_module_of(symbol.uri@, current_file@) == Some(m@),
{
    if str_equal(symbol.uri.as_str(), current_file) {
        return None;
    }
    let path = match uri_file_path(symbol.uri.as_str()) {
        Some(p) => p,
        None => return None,
    };
    let name = match file_name_of_path(path.as_str()) {
        Some(n) => n,
        None => return None,
    };
    let st = stem(name.as_slice());
    if st.len() == 0 {
        return Some(char_to_uppercase('M'));
    }
    let mut m = char_to_uppercase(st[0]);
    let mut rest: Vec<char> = Vec::new();
    let mut i: usize = 1;
    while i < st.len()
        invariant
            1 <= i <= st@.len(),
            rest@ == st@.subrange(1, i as int),
        decreases st.len() - i,
    {
        rest.push(st[i]);
        i = i + 1;
        assert(rest@ =~= st@.subrange(1, i as int));
    }
    assert(rest@ =~= st@.skip(1));
    let tail = string_from_chars(rest.as_slice());
    m.append(tail.as_str());
    Some(m)
}

/// The text `name + " :"`.
pub open spec fn annotation_head(name: Seq<char>) -> Seq<char> {
    name + " :"@
}

/// Where the first annotation for `name` is among the annotations (their
/// texts once leading white space is trimmed start with `name :`), or -1.
pub open spec fn first_annotation(annotations: Seq<String>, name: Seq<char>) -> int
    decreases annotations.len(),
{
    if annotations.len() == 0 {
        -1
    } else if first_annotation(annotations.drop_last(), name) >= 0 {
        first_annotation(annotations.drop_last(), name)
    } else if starts_with(trim_start(annotations.last()@), annotation_head(name)) {
        annotations.len() - 1
    } else {
        -1
    }
}

fn head_with(name: &str, tail: &str) -> (r: Vec<char>)
    ensures
        r@ == name@ + tail@,
{
    let mut s = name.to_string();
    s.append(tail);
    chars_of(s.as_str())
}

/// The type of a local symbol, from the texts of the document's type
/// annotations in the order they appear: the first annotation for the name,
/// trimmed.
pub fn extract_local_type_info(annotations: &Vec<String>, symbol_name: &str) -> (r: Option<String>)
    ensures
        first_annotation(annotations@, symbol_name@) == -1 <==> r is None,
        r matches Some(t) ==> t@ == trim(annotations@[first_annotation(annotations@, symbol_name@)]@),
{
    proof {
        reveal_strlit(" :");
    }
    let head = head_with(symbol_name, " :");
    let mut i: usize = 0;
    assert(annotations@.take(0) =~= Seq::<String>::empty());
    while i < annotations.len()
        invariant
            0 <= i <= annotations@.len(),
            head@ == annotation_head(symbol_name@),
            first_annotation(annotations@.take(i as int), symbol_name@) == -1,
        decreases annotations.len() - i,
    {
        assert(annotations@.take(i + 1).drop_last() =~= annotations@.take(i as int));
        let text = chars_of(annotations[i].as_str());
        let lead = trim_start_chars(text.as_slice());
        if has_prefix(lead.as_slice(), head.as_slice()) {
            proof {
                lemma_first_annotation_extends(annotations@, symbol_name@, i + 1);
            }
            let t = trim_chars(text.as_slice());
            return Some(string_from_chars(t.as_slice()));
        }
        i = i + 1;
    }
    assert(annotations@.take(annotations@.len() as int) =~= annotations@);
    None
}

proof fn lemma_first_annotation_extends(annotations: Seq<String>, name: Seq<char>, n: int)
    requires
        0 < n <= annotations.len(),
        first_annotation(annotations.take(n), name) >= 0,
    ensures
        first_annotation(annotations, name) == first_annotation(annotations.take(n), name),
    decreases annotations.len() - n,
{
    if n < annotations.len() {
        assert(annotations.take(n + 1).drop_last() =~= annotations.take(n));
        lemma_first_annotation_extends(annotations, name, n + 1);
    } else {
        assert(annotations.take(n) =~= annotations);
    }
}

/// A documentation comment of the document and the text of the first node
/// after it that is no comment, if any.
#[derive(Debug, Clone)]
pub struct DocComment {
    pub comment: String,
    pub next_text: Option<String>,
}

/// The comment documents `name`: it is a `{-| ... -}` comment and the node
/// after it holds `name :` or `name =`.
pub open spec fn documents_name(c: DocComment, name: Seq<char>) -> bool {
    &&& starts_with(c.comment@, "{-|"@)
    &&& ends_with(c.comment@, "-}"@)
    &&& c.next_text matches Some(t) && (contains_text(t@, name + " :"@) || contains_text(
        t@,
        name + " ="@,
    ))
}

/// Where the first comment that documents `name` is, or -1.
pub open spec fn first_documenting(comments: Seq<DocComment>, name: Seq<char>) -> int
    decreases comments.len(),
{
    if comments.len() == 0 {
        -1
    } else if first_documenting(comments.drop_last(), name) >= 0 {
        first_documenting(comments.drop_last(), name)
    } else if documents_name(comments.last(), name) {
        comments.len() - 1
    } else {
        -1
    }
}

/// The documentation a comment gives: what lies between `{-|` and `-}`, trimmed.
pub open spec fn comment_body(comment: Seq<char>) -> Seq<char> {
    trim(comment.subrange(3, comment.len() - 2))
}

proof fn lemma_first_documenting_extends(comments: Seq<DocComment>, name: Seq<char>, n: int)
    requires
        0 < n <= comments.len(),
        first_documenting(comments.take(n), name) >= 0,
    ensures
        first_documenting(comments, name) == first_documenting(comments.take(n), name),
    decreases comments.len() - n,
{
    if n < comments.len() {
        assert(comments.take(n + 1).drop_last() =~= comments.take(n));
        lemma_first_documenting_extends(comments, name, n + 1);
    } else {
        assert(comments.take(n) =~= comments);
    }
}

/// The documentation a hover shows for a local symbol comes from the first
/// comment, in document order, that is a `{-| ... -}` comment followed by a
/// node holding `name :` or `name =`; there is none when no comment is.
pub proof fn law_first_documenting_comment(comments: Seq<DocComment>, name: Seq<char>)
    ensures
        -1 <= first_documenting(comments, name) < comments.len(),
        first_documenting(comments, name) >= 0 ==> {
            let c = comments[first_documenting(comments, name)];
            &&& starts_with(c.comment@, "{-|"@)
            &&& ends_with(c.comment@, "-}"@)
            &&& c.next_text matches Some(t) && (contains_text(t@, name + " :"@) || contains_text(t@, name + " ="@))
        },
        forall|k: int|
            0 <= k < comments.len() && (k < first_documenting(comments, name) || first_documenting(comments, name)
                == -1) ==> !(starts_with((#[trigger] comments[k]).comment@, "{-|"@) && ends_with(
                comments[k].comment@,
                "-}"@,
            ) && (comments[k].next_text matches Some(t) && (contains_text(t@, name + " :"@) || contains_text(
                t@,
                name + " ="@,
            )))),
    decreases comments.len(),
{
    if comments.len() > 0 {
        let t = comments.drop_last();
        law_first_documenting_comment(t, name);
        assert forall|k: int| 0 <= k < t.len() implies t[k] == comments[k] by {}
    }
}

/// The type a hover shows for a local symbol comes from the first
/// annotation whose text, once leading white space is trimmed, starts with
/// `name :`; there is none when no annotation does.
pub proof fn law_first_matching_annotation(annotations: Seq<String>, name: Seq<char>)
    ensures
        -1 <= first_annotation(annotations, name) < annotations.len(),
        first_annotation(annotations, name) >= 0 ==> starts_with(
            trim_start(annotations[first_annotation(annotations, name)]@),
            name + " :"@,
        ),
        forall|k: int|
            0 <= k < annotations.len() && (k < first_annotation(annotations, name) || first_annotation(
                annotations,
                name,
            ) == -1) ==> !starts_with(trim_start((#[trigger] annotations[k])@), name + " :"@),
    decreases annotations.len(),
{
    if annotations.len() > 0 {
        let t = annotations.drop_last();
        law_first_matching_annotation(t, name);
        assert forall|k: int| 0 <= k < t.len() implies t[k] == annotations[k] by {}
    }
}

/// The documentation of a local symbol, from the document's block comments
/// in the order they appear: the body of the first that documents the name.
pub fn extract_nearby_documentation(comments: &Vec<DocComment>, symbol_name: &str) -> (r: Option<String>)
    ensures
        first_documenting(comments@, symbol_name@) == -1 <==> r is None,
        r matches Some(d) ==> d@ == comment_body(
            comments@[first_documenting(comments@, symbol_name@)].comment@,
        ),
{
    proof {
        reveal_strlit("{-|");
        reveal_strlit("-}");
        reveal_strlit(" :");
        reveal_strlit(" =");
    }
    let open_mark = chars_of("{-|");
    let close_mark = chars_of("-}");
    let typed = head_with(symbol_name, " :");
    let defined = head_with(symbol_name, " =");
    let mut i: usize = 0;
    assert(comments@.take(0) =~= Seq::<DocComment>::empty());
    while i < comments.len()
        invariant
            0 <= i <= comments@.len(),
            open_mark@ == "{-|"@,
            close_mark@ == "-}"@,
            typed@ == symbol_name@ + " :"@,
            defined@ == symbol_name@ + " ="@,
            first_documenting(comments@.take(i as int), symbol_name@) == -1,
        decreases comments.len() - i,
    {
        assert(comments@.take(i + 1).drop_last() =~= comments@.take(i as int));
        let c = &comments[i];
        let text = chars_of(c.comment.as_str());
        if has_prefix(text.as_slice(), open_mark.as_slice()) && has_suffix(
            text.as_slice(),
            close_mark.as_slice(),
        ) {
            if let Some(next) = &c.next_text {
                let nt = chars_of(next.as_str());
                if crate::line_scan::contains_chars(nt.as_slice(), typed.as_slice())
                    || crate::line_scan::contains_chars(nt.as_slice(), defined.as_slice()) {
                    proof {
                        lemma_first_documenting_extends(comments@, symbol_name@, i + 1);
                        reveal_strlit("{-|");
                        reveal_strlit("-}");
                        assert(open_mark@ =~= seq!['{', '-', '|']);
                        assert(close_mark@ =~= seq!['-', '}']);
                        assert(text@.len() >= 5) by {
                            assert(text@.take(3)[2] == '|');
                            if text@.len() == 3 {
                                assert(text@.skip(1)[1] == '}');
                            } else if text@.len() == 4 {
                                assert(text@.skip(2)[0] == '-');
                            }
                        }
                    }
                    let mut inner: Vec<char> = Vec::new();
                    let end: usize = text.len() - 2;
                    let mut k: usize = 3;
                    while k < end
                        invariant
                            3 <= k <= end,
                            end == text@.len() - 2,
                            inner@ == text@.subrange(3, k as int),
                        decreases end - k,
                    {
                        inner.push(text[k]);
                        k = k + 1;
                        assert(inner@ =~= text@.subrange(3, k as int));
                    }
                    let t = trim_chars(inner.as_slice());
                    return Some(string_from_chars(t.as_slice()));
                }
            }
        }
        i = i + 1;
    }
    assert(comments@.take(comments@.len() as int) =~= comments@);
    None
}

/// What a hover shows of a local symbol: its type annotation and its
/// documentation, when either is found.
pub fn extract_local_symbol_info(
    type_info: Option<String>,
    documentation: Option<String>,
    symbol_name: String,
    symbol_range: Range,
) -> (r: Option<HoverInfo>)
    ensures
        (type_info is None && documentation is None) <==> r is None,
        r matches Some(h) ==> h.type_info == type_info && h.documentation == documentation
            && h.source_module is None && h.range == symbol_range && h.symbol_name == symbol_name,
{
    if type_info.is_some() || documentation.is_some() {
        Some(
            HoverInfo {
                type_info,
                documentation,
                source_module: None,
                range: symbol_range,
                symbol_name,
            },
        )
    } else {
        None
    }
}

fn copy_opt(o: &Option<String>) -> (r: Option<String>)
    ensures
        r is Some <==> o is Some,
        r matches Some(t) ==> t@ == o->0@,
{
    match o {
        Some(t) => Some(t.clone()),
        None => None,
    }
}

/// What a hover shows of the symbol at a node: nothing for a node that names
/// nothing; for an indexed symbol (see `find_best_matching_symbol`), its
/// signature, documentation and source module; else what the document says
/// of it locally (the type annotation and documentation found for it).
pub fn extract_hover_info(
    node_kind: &str,
    symbol_name: String,
    symbol_range: Range,
    indexed: &Vec<Symbol>,
    file_uri: &str,
    local_type: Option<String>,
    local_documentation: Option<String>,
) -> (r: Option<HoverInfo>)
    ensures
        !hoverable_kind(node_kind@) ==> r is None,
        hoverable_kind(node_kind@) && best_symbol_index(indexed@, file_uri@) >= 0 ==> (r matches Some(h) && ({
            let s = indexed@[best_symbol_index(indexed@, file_uri@)];
            &&& h.symbol_name == symbol_name
            &&& h.range == symbol_range
            &&& (h.type_info is Some <==> s.signature is Some)
            &&& (h.type_info matches Some(t) ==> t@ == s.signature->0@)
            &&& (h.documentation is Some <==> s.documentation is Some)
            &&& (h.documentation matches Some(d) ==> d@ == s.documentation->0@)
            &&& (h.source_module is Some <==> source_module_of(s.uri@, file_uri@) is Some)
            &&& (h.source_module matches Some(m) ==> source_module_of(s.uri@, file_uri@) == Some(m@))
        })),
        hoverable_kind(node_kind@) && best_symbol_index(indexed@, file_uri@) == -1 ==> ((
        local_type is None && local_documentation is None) <==> r is None) && (r matches Some(h)
            ==> h.type_info == local_type && h.documentation == local_documentation
            && h.source_module is None && h.range == symbol_range && h.symbol_name == symbol_name),
{
    if !is_hoverable_node(node_kind) {
        return None;
    }
    match find_best_matching_symbol(indexed, file_uri) {
        Some(symbol) => {
            let source_module = determine_source_module(&symbol, file_uri);
            Some(
                HoverInfo {
                    type_info: copy_opt(&symbol.signature),
                    documentation: copy_opt(&symbol.documentation),
                    source_module,
                    range: symbol_range,
                    symbol_name,
                },
            )
        },
        None => extract_local_symbol_info(local_type, local_documentation, symbol_name, symbol_range),
    }
}

/// One part of a hover's content.
#[derive(Debug, Clone)]
pub enum MarkedString {
    /// Plain markdown text.
    String(String),
    /// Source code of a language.
    LanguageString { language: String, value: String },
}

/// A hover: its content and the range it describes.
#[derive(Debug, Clone)]
pub struct Hover {
    pub contents: Vec<MarkedString>,
    pub range: Option<Range>,
}

/// The hover's parts for a symbol: its type as Gren code, its
/// documentation, `from` its source module; `Symbol:` and its name when
/// there is none of these.
pub open spec fn hover_parts(info: HoverInfo) -> Seq<Seq<char>> {
    let parts = (if info.type_info is Some { seq![info.type_info->0@] } else { Seq::empty() }) + (
    if info.documentation is Some {
        seq![info.documentation->0@]
    } else {
        Seq::empty()
    }) + (if info.source_module is Some {
        seq!["from "@ + info.source_module->0@]
    } else {
        Seq::empty()
    });
    if parts.len() == 0 {
        seq!["Symbol: "@ + info.symbol_name@]
    } else {
        parts
    }
}

pub open spec fn marked_text(m: MarkedString) -> Seq<char> {
    match m {
        MarkedString::String(s) => s@,
        MarkedString::LanguageString { value, .. } => value@,
    }
}

/// The hover for a symbol's information: the parts of `hover_parts`, the type
/// as `gren` code and the others as text, over the symbol's range.
pub fn format_hover_response(info: HoverInfo) -> (r: Hover)
    ensures
        r.range == Some(info.range),
        r.contents@.len() == hover_parts(info).len(),
        forall|i: int| 0 <= i < r.contents@.len() ==> marked_text(#[trigger] r.contents@[i]) == hover_parts(info)[i],
        info.type_info is Some ==> (r.contents@[0] matches MarkedString::LanguageString { language, .. }
            && language@ == "gren"@),
        forall|i: int|
            (if info.type_info is Some { 1int } else { 0int }) <= i < r.contents@.len() ==> (#[trigger] r.contents@[i]) is String,
{
    let ghost parts = hover_parts(info);
    let mut contents: Vec<MarkedString> = Vec::new();
    if let Some(t) = &info.type_info {
        contents.push(MarkedString::LanguageString { language: "gren".to_string(), value: t.clone() });
    }
    if let Some(d) = &info.documentation {
        contents.push(MarkedString::String(d.clone()));
    }
    if let Some(m) = &info.source_module {
        let mut s = "from ".to_string();
        s.append(m.as_str());
        contents.push(MarkedString::String(s));
    }
    if contents.len() == 0 {
        let mut s = "Symbol: ".to_string();
        s.append(info.symbol_name.as_str());
        contents.push(MarkedString::String(s));
    }
    proof {
        assert(contents@.len() == parts.len());
        assert forall|i: int| 0 <= i < contents@.len() implies marked_text(#[trigger] contents@[i]) == parts[i] by {}
    }
    Hover { contents, range: Some(info.range) }
}

/// The range of a syntax node from its start and end points (row and
/// column, the column counted in bytes), each cast to `u32` as the protocol
/// wants it.
pub fn node_to_range(start_row: usize, start_column: usize, end_row: usize, end_column: usize) -> (r: Range)
    ensures
        r.start.line == start_row as u32,
        r.start.character == start_column as u32,
        r.end.line == end_row as u32,
        r.end.character == end_column as u32,
{
    Range {
        start: Position { line: start_row as u32, character: start_column as u32 },
        end: Position { line: end_row as u32, character: end_column as u32 },
    }
}

} // verus!

//! The records of the symbol index: symbols, references and imports, their
//! kinds, and their conversions to protocol values.
use vstd::prelude::*;
use crate::protocol::{Location, Position, Range};

verus! {

/// The kind of a symbol, numbered as the editor protocol numbers them.
#[allow(non_camel_case_types)]
#[derive(Debug, Clone, Copy, PartialEq, Eq, Structural)]
pub enum SymbolKind {
    FILE,
    MODULE,
    NAMESPACE,
    PACKAGE,
    CLASS,
    METHOD,
    PROPERTY,
    FIELD,
    CONSTRUCTOR,
    ENUM,
    INTERFACE,
    FUNCTION,
    VARIABLE,
    CONSTANT,
    STRING,
    NUMBER,
    BOOLEAN,
    ARRAY,
    OBJECT,
    KEY,
    NULL,
    ENUM_MEMBER,
    STRUCT,
    EVENT,
    OPERATOR,
    TYPE_PARAMETER,
}

/// The protocol's number of a symbol kind.
pub open spec fn kind_number(kind: SymbolKind) -> i32 {
    match kind {
        SymbolKind::FILE => 1,
        SymbolKind::MODULE => 2,
        SymbolKind::NAMESPACE => 3,
        SymbolKind::PACKAGE => 4,
        SymbolKind::CLASS => 5,
        SymbolKind::METHOD => 6,
        SymbolKind::PROPERTY => 7,
        SymbolKind::FIELD => 8,
        SymbolKind::CONSTRUCTOR => 9,
        SymbolKind::ENUM => 10,
        SymbolKind::INTERFACE => 11,
        SymbolKind::FUNCTION => 12,
        SymbolKind::VARIABLE => 13,
        SymbolKind::CONSTANT => 14,
        SymbolKind::STRING => 15,
        SymbolKind::NUMBER => 16,
        SymbolKind::BOOLEAN => 17,
        SymbolKind::ARRAY => 18,
        SymbolKind::OBJECT => 19,
        SymbolKind::KEY => 20,
        SymbolKind::NULL => 21,
        SymbolKind::ENUM_MEMBER => 22,
        SymbolKind::STRUCT => 23,
        SymbolKind::EVENT => 24,
        SymbolKind::OPERATOR => 25,
        SymbolKind::TYPE_PARAMETER => 26,
    }
}

/// The kind a stored number stands for; numbers outside `1..=26` read as `VARIABLE`.
pub open spec fn kind_of_number(n: i32) -> SymbolKind {
    if n == 1 {
        SymbolKind::FILE
    } else if n == 2 {
        SymbolKind::MODULE
    } else if n == 3 {
        SymbolKind::NAMESPACE
    } else if n == 4 {
        SymbolKind::PACKAGE
    } else if n == 5 {
        SymbolKind::CLASS
    } else if n == 6 {
        SymbolKind::METHOD
    } else if n == 7 {
        SymbolKind::PROPERTY
    } else if n == 8 {
        SymbolKind::FIELD
    } else if n == 9 {
        SymbolKind::CONSTRUCTOR
    } else if n == 10 {
        SymbolKind::ENUM
    } else if n == 11 {
        SymbolKind::INTERFACE
    } else if n == 12 {
        SymbolKind::FUNCTION
    } else if n == 14 {
        SymbolKind::CONSTANT
    } else if n == 15 {
        SymbolKind::STRING
    } else if n == 16 {
        SymbolKind::NUMBER
    } else if n == 17 {
        SymbolKind::BOOLEAN
    } else if n == 18 {
        SymbolKind::ARRAY
    } else if n == 19 {
        SymbolKind::OBJECT
    } else if n == 20 {
        SymbolKind::KEY
    } else if n == 21 {
        SymbolKind::NULL
    } else if n == 22 {
        SymbolKind::ENUM_MEMBER
    } else if n == 23 {
        SymbolKind::STRUCT
    } else if n == 24 {
        SymbolKind::EVENT
    } else if n == 25 {
        SymbolKind::OPERATOR
    } else if n == 26 {
        SymbolKind::TYPE_PARAMETER
    } else {
        SymbolKind::VARIABLE
    }
}

/// The number under which a symbol kind is stored.
pub fn symbol_kind_to_i32(kind: SymbolKind) -> (r: i32)
    ensures
        r == kind_number(kind),
{
    match kind {
        SymbolKind::FILE => 1,
        SymbolKind::MODULE => 2,
        SymbolKind::NAMESPACE => 3,
        SymbolKind::PACKAGE => 4,
        SymbolKind::CLASS => 5,
        SymbolKind::METHOD => 6,
        SymbolKind::PROPERTY => 7,
        SymbolKind::FIELD => 8,
        SymbolKind::CONSTRUCTOR => 9,
        SymbolKind::ENUM => 10,
        SymbolKind::INTERFACE => 11,
        SymbolKind::FUNCTION => 12,
        SymbolKind::VARIABLE => 13,
        SymbolKind::CONSTANT => 14,
        SymbolKind::STRING => 15,
        SymbolKind::NUMBER => 16,
        SymbolKind::BOOLEAN => 17,
        SymbolKind::ARRAY => 18,
        SymbolKind::OBJECT => 19,
        SymbolKind::KEY => 20,
        SymbolKind::NULL => 21,
        SymbolKind::ENUM_MEMBER => 22,
        SymbolKind::STRUCT => 23,
        SymbolKind::EVENT => 24,
        SymbolKind::OPERATOR => 25,
        SymbolKind::TYPE_PARAMETER => 26,
    }
}

/// The symbol kind a stored number stands for.
pub fn i32_to_symbol_kind(kind: i32) -> (r: SymbolKind)
    ensures
        r == kind_of_number(kind),
{
    match kind {
        1 => SymbolKind::FILE,
        2 => SymbolKind::MODULE,
        3 => SymbolKind::NAMESPACE,
        4 => SymbolKind::PACKAGE,
        5 => SymbolKind::CLASS,
        6 => SymbolKind::METHOD,
        7 => SymbolKind::PROPERTY,
        8 => SymbolKind::FIELD,
        9 => SymbolKind::CONSTRUCTOR,
        10 => SymbolKind::ENUM,
        11 => SymbolKind::INTERFACE,
        12 => SymbolKind::FUNCTION,
        14 => SymbolKind::CONSTANT,
        15 => SymbolKind::STRING,
        16 => SymbolKind::NUMBER,
        17 => SymbolKind::BOOLEAN,
        18 => SymbolKind::ARRAY,
        19 => SymbolKind::OBJECT,
        20 => SymbolKind::KEY,
        21 => SymbolKind::NULL,
        22 => SymbolKind::ENUM_MEMBER,
        23 => SymbolKind::STRUCT,
        24 => SymbolKind::EVENT,
        25 => SymbolKind::OPERATOR,
        26 => SymbolKind::TYPE_PARAMETER,
        _ => SymbolKind::VARIABLE,
    }
}

/// Storing a kind as its number and reading the number back gives the kind.
pub proof fn law_symbol_kind_round_trip(kind: SymbolKind)
    ensures
        kind_of_number(kind_number(kind)) == kind,
        1 <= kind_number(kind) <= 26,
{
}

/// Reading a number in `1..=26` as a kind and storing the kind gives the number.
pub proof fn law_symbol_kind_number_round_trip(n: i32)
    requires
        1 <= n <= 26,
    ensures
        kind_number(kind_of_number(n)) == n,
{
}

/// A symbol of the index.
#[derive(Debug, Clone)]
pub struct Symbol {
    pub id: Option<i64>,
    pub name: String,
    /// The kind's protocol number.
    pub kind: i32,
    pub uri: String,
    pub range_start_line: i32,
    pub range_start_char: i32,
    pub range_end_line: i32,
    pub range_end_char: i32,
    pub container: Option<String>,
    pub signature: Option<String>,
    pub documentation: Option<String>,
    pub created_at: Option<String>,
}

/// A symbol as a workspace symbol search reports it.
#[derive(Debug, Clone)]
pub struct SymbolInformation {
    pub name: String,
    pub kind: SymbolKind,
    pub location: Location,
    pub container_name: Option<String>,
}

/// A symbol of a document outline, with the symbols nested in it.
#[derive(Debug)]
pub struct DocumentSymbol {
    pub name: String,
    pub detail: Option<String>,
    pub kind: SymbolKind,
    pub range: Range,
    pub selection_range: Range,
    pub children: Option<Vec<DocumentSymbol>>,
}

/// What the URL parser makes of a URI string: its normalised text, or `None`
/// when it does not parse.
pub uninterp spec fn parsed_url(s: Seq<char>) -> Option<Seq<char>>;

/// `url::Url::parse`, then the parsed URL's text.  Stated: the result is the
/// parser's verdict on `s`, which depends on `s` alone; the parser's rules
/// (RFC 3986 and the WHATWG URL standard) are not stated.
#[verifier::external_body]
pub(crate) fn parse_url(s: &str) -> (r: Option<String>)
    ensures
        r is Some <==> parsed_url(s@) is Some,
        r matches Some(u) ==> parsed_url(s@) == Some(u@),
{
    url::Url::parse(s).ok().map(|u| u.to_string())
}

/// The range of protocol positions that a stored range stands for.
pub open spec fn stored_range(sl: i32, sc: i32, el: i32, ec: i32) -> Range {
    Range {
        start: Position { line: sl as u32, character: sc as u32 },
        end: Position { line: el as u32, character: ec as u32 },
    }
}

/// Why a stored record could not be turned into a protocol value.
#[derive(Debug, Clone, PartialEq, Eq, Structural)]
pub enum SymbolError {
    /// The stored URI does not parse.
    InvalidUri,
}

impl Symbol {
    /// A new, not yet stored symbol.
    pub fn new(
        name: String,
        kind: SymbolKind,
        uri: &str,
        range: Range,
        container: Option<String>,
        signature: Option<String>,
        documentation: Option<String>,
    ) -> (r: Symbol)
        ensures
            r.id is None,
            r.name == name,
            r.kind == kind_number(kind),
            r.uri@ == uri@,
            r.range_start_line == range.start.line as i32,
            r.range_start_char == range.start.character as i32,
            r.range_end_line == range.end.line as i32,
            r.range_end_char == range.end.character as i32,
            r.container == container,
            r.signature == signature,
            r.documentation == documentation,
            r.created_at is None,
    {
        Symbol {
            id: None,
            name,
            kind: symbol_kind_to_i32(kind),
            uri: uri.to_owned(),
            range_start_line: range.start.line as i32,
            range_start_char: range.start.character as i32,
            range_end_line: range.end.line as i32,
            range_end_char: range.end.character as i32,
            container,
            signature,
            documentation,
            created_at: None,
        }
    }

    /// The range the symbol covers.
    pub fn range(&self) -> (r: Range)
        ensures
            r == stored_range(
                self.range_start_line,
                self.range_start_char,
                self.range_end_line,
                self.range_end_char,
            ),
    {
        Range {
            start: Position {
                line: self.range_start_line as u32,
                character: self.range_start_char as u32,
            },
            end: Position {
                line: self.range_end_line as u32,
                character: self.range_end_char as u32,
            },
        }
    }

    /// The symbol as a workspace-symbol result; fails when its URI does not parse.
    pub fn to_symbol_information(&self) -> (r: Result<SymbolInformation, SymbolError>)
        ensures
            r is Err <==> parsed_url(self.uri@) is None,
            r matches Ok(info) ==> {
                &&& info.name == self.name
                &&& info.kind == kind_of_number(self.kind)
                &&& parsed_url(self.uri@) == Some(info.location.uri@)
                &&& info.location.range == stored_range(
                    self.range_start_line,
                    self.range_start_char,
                    self.range_end_line,
                    self.range_end_char,
                )
                &&& info.container_name == self.container
            },
    {
        let uri = match parse_url(self.uri.as_str()) {
            Some(u) => u,
            None => return Err(SymbolError::InvalidUri),
        };
        Ok(SymbolInformation {
            name: self.name.clone(),
            kind: i32_to_symbol_kind(self.kind),
            location: Location { uri, range: self.range() },
            container_name: self.container.clone(),
        })
    }

    /// The symbol as an outline entry without children.
    pub fn to_document_symbol(&self) -> (r: Result<DocumentSymbol, SymbolError>)
        ensures
            r matches Ok(d) && {
                &&& d.name == self.name
                &&& d.detail == self.signature
                &&& d.kind == kind_of_number(self.kind)
                &&& d.range == stored_range(
                    self.range_start_line,
                    self.range_start_char,
                    self.range_end_line,
                    self.range_end_char,
                )
                &&& d.selection_range == d.range
                &&& d.children is None
            },
    {
        let range = self.range();
        Ok(DocumentSymbol {
            name: self.name.clone(),
            detail: self.signature.clone(),
            kind: i32_to_symbol_kind(self.kind),
            range,
            selection_range: range,
            children: None,
        })
    }
}

/// How a symbol is referred to at a place.
#[derive(Debug, Clone, Copy, PartialEq, Eq, Structural)]
pub enum ReferenceKind {
    /// A use of the symbol.
    Usage,
    /// A declaration, e.g. a type annotation.
    Declaration,
    /// A definition, e.g. a function body.
    Definition,
}

pub open spec fn reference_kind_text(k: ReferenceKind) -> Seq<char> {
    match k {
        ReferenceKind::Usage => "usage"@,
        ReferenceKind::Declaration => "declaration"@,
        ReferenceKind::Definition => "definition"@,
    }
}

impl ReferenceKind {
    /// The stored text of the kind.
    pub fn to_string(&self) -> (r: String)
        ensures
            r@ == reference_kind_text(*self),
    {
        match self {
            ReferenceKind::Usage => "usage".to_owned(),
            ReferenceKind::Declaration => "declaration".to_owned(),
            ReferenceKind::Definition => "definition".to_owned(),
        }
    }
}

/// A place where a symbol is referred to.
#[derive(Debug, Clone)]
pub struct SymbolReference {
    pub id: Option<i64>,
    pub symbol_name: String,
    pub uri: String,
    pub range_start_line: i32,
    pub range_start_char: i32,
    pub range_end_line: i32,
    pub range_end_char: i32,
    /// `usage`, `declaration` or `definition`.
    pub reference_kind: String,
    pub created_at: Option<String>,
}

impl SymbolReference {
    /// A new, not yet stored reference.
    pub fn new(symbol_name: String, uri: &str, range: Range, reference_kind: ReferenceKind) -> (r:
        SymbolReference)
        ensures
            r.id is None,
            r.symbol_name == symbol_name,
            r.uri@ == uri@,
            r.range_start_line == range.start.line as i32,
            r.range_start_char == range.start.character as i32,
            r.range_end_line == range.end.line as i32,
            r.range_end_char == range.end.character as i32,
            r.reference_kind@ == reference_kind_text(reference_kind),
            r.created_at is None,
    {
        SymbolReference {
            id: None,
            symbol_name,
            uri: uri.to_owned(),
            range_start_line: range.start.line as i32,
            range_start_char: range.start.character as i32,
            range_end_line: range.end.line as i32,
            range_end_char: range.end.character as i32,
            reference_kind: reference_kind.to_string(),
            created_at: None,
        }
    }

    /// The place as a protocol location; fails when its URI does not parse.
    pub fn to_location(&self) -> (r: Result<Location, SymbolError>)
        ensures
            r is Err <==> parsed_url(self.uri@) is None,
            r matches Ok(l) ==> {
                &&& parsed_url(self.uri@) == Some(l.uri@)
                &&& l.range == stored_range(
                    self.range_start_line,
                    self.range_start_char,
                    self.range_end_line,
                    self.range_end_char,
                )
            },
    {
        let uri = match parse_url(self.uri.as_str()) {
            Some(u) => u,
            None => return Err(SymbolError::InvalidUri),
        };
        Ok(Location {
            uri,
            range: Range {
                start: Position {
                    line: self.range_start_line as u32,
                    character: self.range_start_char as u32,
                },
                end: Position {
                    line: self.range_end_line as u32,
                    character: self.range_end_char as u32,
                },
            },
        })
    }
}

/// The JSON text serde_json writes for a list of strings.
pub uninterp spec fn json_of_strings(v: Seq<Seq<char>>) -> Seq<char>;

/// The list of strings serde_json reads from a JSON text, or `None` when the
/// text is not a JSON array of strings.
pub uninterp spec fn strings_of_json(s: Seq<char>) -> Option<Seq<Seq<char>>>;

/// `serde_json::to_string` of a list of strings.  Stated: the text is a
/// function of the strings, and reading it back gives the same strings.
#[verifier::external_body]
pub(crate) fn strings_to_json(v: &Vec<String>) -> (r: String)
    ensures
        r@ == json_of_strings(v.deep_view()),
        strings_of_json(r@) == Some(v.deep_view()),
{
    serde_json::to_string(v).unwrap_or_default()
}

/// `serde_json::from_str` into a list of strings; `None` on any error.
#[verifier::external_body]
pub(crate) fn strings_from_json(s: &str) -> (r: Option<Vec<String>>)
    ensures
        r is Some <==> strings_of_json(s@) is Some,
        r matches Some(v) ==> strings_of_json(s@) == Some(v.deep_view()),
{
    serde_json::from_str::<Vec<String>>(s).ok()
}

/// An import of a source file, as the index stores it.
#[derive(Debug, Clone)]
pub struct ImportInfo {
    pub id: Option<i64>,
    pub source_uri: String,
    pub imported_module: String,
    /// The exposed names, as a JSON array.
    pub imported_symbols: Option<String>,
    pub alias_name: Option<String>,
    pub exposing_all: bool,
    pub created_at: Option<String>,
}

/// The names an import exposes by name: those of its stored list, none when
/// the list is missing or not a JSON array of strings.
pub open spec fn exposed_names(info: ImportInfo) -> Seq<Seq<char>> {
    match info.imported_symbols {
        Some(json) => match strings_of_json(json@) {
            Some(v) => v,
            None => Seq::empty(),
        },
        None => Seq::empty(),
    }
}

impl ImportInfo {
    /// A new, not yet stored import.
    pub fn new(
        source_uri: &str,
        imported_module: String,
        imported_symbols: Option<Vec<String>>,
        alias_name: Option<String>,
        exposing_all: bool,
    ) -> (r: ImportInfo)
        ensures
            r.id is None,
            r.source_uri@ == source_uri@,
            r.imported_module == imported_module,
            imported_symbols is None ==> r.imported_symbols is None,
            imported_symbols matches Some(v) ==> r.imported_symbols matches Some(j) && j@
                == json_of_strings(v.deep_view()),
            r.alias_name == alias_name,
            r.exposing_all == exposing_all,
            r.created_at is None,
            imported_symbols matches Some(v) ==> exposed_names(r) == v.deep_view(),
            imported_symbols is None ==> exposed_names(r) == Seq::<Seq<char>>::empty(),
    {
        let json = match imported_symbols {
            Some(v) => Some(strings_to_json(&v)),
            None => None,
        };
        ImportInfo {
            id: None,
            source_uri: source_uri.to_owned(),
            imported_module,
            imported_symbols: json,
            alias_name,
            exposing_all,
            created_at: None,
        }
    }

    /// The names the import exposes by name.
    pub fn get_imported_symbols(&self) -> (r: Vec<String>)
        ensures
            r.deep_view() == exposed_names(*self),
    {
        match &self.imported_symbols {
            Some(json) => match strings_from_json(json.as_str()) {
                Some(v) => v,
                None => Vec::new(),
            },
            None => Vec::new(),
        }
    }
}

} // verus!

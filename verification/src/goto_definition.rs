//! Go to definition: the indexed symbol chosen as a name's definition, its
//! location, and the definition found in the document itself.
use vstd::prelude::*;
use vstd::string::*;
use crate::hover::{hoverable_kind, is_hoverable_node};
use crate::protocol::{Location, Range};
use crate::search::copy_symbol;
use crate::symbols::{parse_url, parsed_url, stored_range, Symbol, SymbolError};

verus! {

/// A definition found for a name: where it is, the symbol, and whether it is
/// in the current file.
#[derive(Debug, Clone)]
pub struct DefinitionResult {
    pub location: Location,
    pub symbol: Symbol,
    pub is_local: bool,
}

/// Syntax node kinds that name something that has a definition.
pub open spec fn navigable_kind(kind: Seq<char>) -> bool {
    hoverable_kind(kind)
}

/// Whether a node of this kind names something that has a definition.
pub fn is_navigable_node(kind: &str) -> (r: bool)
    ensures
        r == navigable_kind(kind@),
{
    is_hoverable_node(kind)
}

/// The navigable node kinds are exactly the five identifier kinds (lower-
/// and upper-case identifiers, type, value and operator identifiers), which
/// are also exactly the kinds that can be hovered.
pub proof fn law_navigable_kinds(kind: Seq<char>)
    ensures
        navigable_kind(kind) <==> (kind == "lower_case_identifier"@ || kind == "upper_case_identifier"@
            || kind == "type_identifier"@ || kind == "value_identifier"@ || kind == "operator_identifier"@),
        navigable_kind(kind) <==> hoverable_kind(kind),
{
}

/// Where the first candidate whose URI parses is, or -1.
pub open spec fn first_valid(symbols: Seq<Symbol>) -> int
    decreases symbols.len(),
{
    if symbols.len() == 0 {
        -1
    } else if first_valid(symbols.drop_last()) >= 0 {
        first_valid(symbols.drop_last())
    } else if parsed_url(symbols.last().uri@) is Some {
        symbols.len() - 1
    } else {
        -1
    }
}

/// Where the first candidate of the current file is, or -1.
pub open spec fn first_in_current(symbols: Seq<Symbol>, current: Seq<char>) -> int
    decreases symbols.len(),
{
    if symbols.len() == 0 {
        -1
    } else if first_in_current(symbols.drop_last(), current) >= 0 {
        first_in_current(symbols.drop_last(), current)
    } else if parsed_url(symbols.last().uri@) == Some(current) {
        symbols.len() - 1
    } else {
        -1
    }
}

/// The candidate chosen as the definition: the first of the current file,
/// else the first whose URI parses; -1 when there is none.
pub open spec fn best_definition_index(symbols: Seq<Symbol>, current: Seq<char>) -> int {
    if first_in_current(symbols, current) >= 0 {
        first_in_current(symbols, current)
    } else {
        first_valid(symbols)
    }
}

proof fn lemma_scan(symbols: Seq<Symbol>, current: Seq<char>, n: int)
    requires
        0 <= n <= symbols.len(),
    ensures
        first_in_current(symbols.take(n), current) >= 0 ==> first_in_current(symbols, current)
            == first_in_current(symbols.take(n), current),
        first_valid(symbols.take(n)) >= 0 ==> first_valid(symbols) == first_valid(symbols.take(n)),
        n == symbols.len() ==> symbols.take(n) == symbols,
    decreases symbols.len() - n,
{
    if n < symbols.len() {
        assert(symbols.take(n + 1).drop_last() =~= symbols.take(n));
        lemma_scan(symbols, current, n + 1);
    } else {
        assert(symbols.take(n) =~= symbols);
    }
}

proof fn lemma_first_valid_parses(symbols: Seq<Symbol>)
    ensures
        first_valid(symbols) >= 0 ==> first_valid(symbols) < symbols.len() && parsed_url(
            symbols[first_valid(symbols)].uri@,
        ) is Some,
    decreases symbols.len(),
{
    if symbols.len() > 0 {
        lemma_first_valid_parses(symbols.drop_last());
    }
}

proof fn lemma_first_in_current_is_first(symbols: Seq<Symbol>, current: Seq<char>)
    ensures
        -1 <= first_in_current(symbols, current) < symbols.len(),
        first_in_current(symbols, current) >= 0 ==> parsed_url(symbols[first_in_current(symbols, current)].uri@)
            == Some(current),
        forall|k: int|
            0 <= k < symbols.len() && (k < first_in_current(symbols, current) || first_in_current(symbols, current)
                == -1) ==> parsed_url((#[trigger] symbols[k]).uri@) != Some(current),
    decreases symbols.len(),
{
    if symbols.len() > 0 {
        let t = symbols.drop_last();
        lemma_first_in_current_is_first(t, current);
        assert forall|k: int| 0 <= k < t.len() implies t[k] == symbols[k] by {}
    }
}

proof fn lemma_first_valid_is_first(symbols: Seq<Symbol>)
    ensures
        -1 <= first_valid(symbols) < symbols.len(),
        first_valid(symbols) >= 0 ==> parsed_url(symbols[first_valid(symbols)].uri@) is Some,
        forall|k: int|
            0 <= k < symbols.len() && (k < first_valid(symbols) || first_valid(symbols) == -1) ==> parsed_url(
                (#[trigger] symbols[k]).uri@,
            ) is None,
    decreases symbols.len(),
{
    if symbols.len() > 0 {
        let t = symbols.drop_last();
        lemma_first_valid_is_first(t);
        assert forall|k: int| 0 <= k < t.len() implies t[k] == symbols[k] by {}
    }
}

/// Go to definition prefers the current file: when some candidate's URI
/// parses to the current file, the definition is the first such candidate;
/// otherwise it is the first candidate whose URI parses; when none parses
/// there is no indexed definition.
pub proof fn law_definition_prefers_current_file(symbols: Seq<Symbol>, current: Seq<char>)
    ensures
        ({
            let b = best_definition_index(symbols, current);
            &&& (exists|j: int| 0 <= j < symbols.len() && parsed_url((#[trigger] symbols[j]).uri@) == Some(current))
                ==> 0 <= b < symbols.len() && parsed_url(symbols[b].uri@) == Some(current) && forall|k: int|
                0 <= k < b ==> parsed_url((#[trigger] symbols[k]).uri@) != Some(current)
            &&& (forall|j: int| 0 <= j < symbols.len() ==> parsed_url((#[trigger] symbols[j]).uri@) != Some(current))
                && (exists|j: int| 0 <= j < symbols.len() && parsed_url((#[trigger] symbols[j]).uri@) is Some)
                ==> 0 <= b < symbols.len() && parsed_url(symbols[b].uri@) is Some && forall|k: int|
                0 <= k < b ==> parsed_url((#[trigger] symbols[k]).uri@) is None
            &&& (forall|j: int| 0 <= j < symbols.len() ==> parsed_url((#[trigger] symbols[j]).uri@) is None) ==> b
                == -1
        }),
{
    lemma_first_in_current_is_first(symbols, current);
    lemma_first_valid_is_first(symbols);
}

/// The location of an indexed symbol: its parsed URI and its stored range.
pub open spec fn symbol_location_is(l: Location, s: Symbol) -> bool {
    &&& parsed_url(s.uri@) == Some(l.uri@)
    &&& l.range == stored_range(s.range_start_line, s.range_start_char, s.range_end_line, s.range_end_char)
}

/// The location of an indexed symbol; fails when its URI does not parse.
pub fn symbol_to_location(symbol: &Symbol) -> (r: Result<Location, SymbolError>)
    ensures
        r is Err <==> parsed_url(symbol.uri@) is None,
        r matches Ok(l) ==> symbol_location_is(l, *symbol),
{
    let uri = match parse_url(symbol.uri.as_str()) {
        Some(u) => u,
        None => return Err(SymbolError::InvalidUri),
    };
    Ok(Location { uri, range: symbol.range() })
}

/// The definition among indexed candidates of the same name (see
/// `best_definition_index`), with its location; none when no candidate's URI
/// parses.
pub fn find_best_definition(symbols: &Vec<Symbol>, current_file_uri: &str) -> (r: Option<DefinitionResult>)
    ensures
        best_definition_index(symbols@, current_file_uri@) < 0 <==> r is None,
        r matches Some(d) ==> ({
            let s = symbols@[best_definition_index(symbols@, current_file_uri@)];
            &&& d.symbol == s
            &&& symbol_location_is(d.location, s)
            &&& d.is_local == (first_in_current(symbols@, current_file_uri@) >= 0)
        }),
{
    let mut best: Option<usize> = None;
    let mut i: usize = 0;
    assert(symbols@.take(0) =~= Seq::<Symbol>::empty());
    while i < symbols.len()
        invariant
            0 <= i <= symbols@.len(),
            first_in_current(symbols@.take(i as int), current_file_uri@) == -1,
            best matches Some(b) ==> b == first_valid(symbols@.take(i as int)) && b < i,
            best is None ==> first_valid(symbols@.take(i as int)) == -1,
        decreases symbols.len() - i,
    {
        assert(symbols@.take(i + 1).drop_last() =~= symbols@.take(i as int));
        assert(symbols@.take(i + 1).last() == symbols@[i as int]);
        if let Some(u) = parse_url(symbols[i].uri.as_str()) {
            if crate::ordering::str_equal(u.as_str(), current_file_uri) {
                proof {
                    lemma_scan(symbols@, current_file_uri@, i + 1);
                }
                let symbol = copy_symbol(&symbols[i]);
                let location = match symbol_to_location(&symbol) {
                    Ok(l) => l,
                    Err(_) => return None,
                };
                return Some(DefinitionResult { location, symbol, is_local: true });
            }
            if best.is_none() {
                best = Some(i);
            }
        }
        i = i + 1;
    }
    proof {
        lemma_scan(symbols@, current_file_uri@, i as int);
        lemma_first_valid_parses(symbols@);
    }
    match best {
        Some(b) => {
            let symbol = copy_symbol(&symbols[b]);
            let location = match symbol_to_location(&symbol) {
                Ok(l) => l,
                Err(_) => return None,
            };
            Some(DefinitionResult { location, symbol, is_local: false })
        },
        None => None,
    }
}

/// The definition of a local name found in the document: a variable symbol
/// of the current file at the defining node's range.
pub fn find_local_definition(symbol_name: &str, file_uri: &str, definition_range: Option<Range>) -> (r: Option<
    DefinitionResult,
>)
    ensures
        definition_range is None <==> r is None,
        r matches Some(d) ==> ({
            let range = definition_range->0;
            &&& d.location.uri@ == file_uri@
            &&& d.location.range == range
            &&& d.is_local
            &&& d.symbol.id is None
            &&& d.symbol.name@ == symbol_name@
            &&& d.symbol.kind == 13
            &&& d.symbol.uri@ == file_uri@
            &&& d.symbol.range_start_line == range.start.line as i32
            &&& d.symbol.range_start_char == range.start.character as i32
            &&& d.symbol.range_end_line == range.end.line as i32
            &&& d.symbol.range_end_char == range.end.character as i32
            &&& d.symbol.container is None
            &&& d.symbol.signature is None
            &&& d.symbol.documentation is None
            &&& d.symbol.created_at is None
        }),
{
    let range = match definition_range {
        Some(r) => r,
        None => return None,
    };
    let symbol = Symbol {
        id: None,
        name: symbol_name.to_string(),
        kind: 13,
        uri: file_uri.to_string(),
        range_start_line: range.start.line as i32,
        range_start_char: range.start.character as i32,
        range_end_line: range.end.line as i32,
        range_end_char: range.end.character as i32,
        container: None,
        signature: None,
        documentation: None,
        created_at: None,
    };
    Some(DefinitionResult { location: Location { uri: file_uri.to_string(), range }, symbol, is_local: true })
}

/// The definition of the name at a node: nothing for a node that names
/// nothing; the best indexed candidate when one has a parsing URI; else the
/// definition found in the document (`local_definition`, the range of the
/// defining node, if any).
pub fn find_symbol_definition(
    node_kind: &str,
    symbol_name: &str,
    indexed: &Vec<Symbol>,
    file_uri: &str,
    local_definition: Option<Range>,
) -> (r: Option<DefinitionResult>)
    ensures
        !navigable_kind(node_kind@) ==> r is None,
        navigable_kind(node_kind@) && best_definition_index(indexed@, file_uri@) >= 0 ==> (r matches Some(d)
            && d.symbol == indexed@[best_definition_index(indexed@, file_uri@)] && symbol_location_is(
            d.location,
            d.symbol,
        )),
        navigable_kind(node_kind@) && best_definition_index(indexed@, file_uri@) < 0 ==> (r is None
            <==> local_definition is None) && (r matches Some(d) ==> d.is_local && d.location.uri@
            == file_uri@ && d.location.range == local_definition->0 && d.symbol.name@ == symbol_name@),
{
    if !is_navigable_node(node_kind) {
        return None;
    }
    match find_best_definition(indexed, file_uri) {
        Some(d) => Some(d),
        None => find_local_definition(symbol_name, file_uri, local_definition),
    }
}

} // verus!

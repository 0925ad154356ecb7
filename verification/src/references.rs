//! Finding references: the places a symbol is referred to, as locations, and
//! the offset of an editor position found by scanning the text.
use vstd::prelude::*;
use crate::ordering::str_equal;
use crate::positions::PositionError;
use crate::protocol::{Location, Position, Range};
use crate::symbols::{parsed_url, stored_range, SymbolReference};
use crate::text::{byte_len, char_utf8_width, chars_of, lemma_byte_len_take_step};

verus! {

/// A location by the text of its URI.
pub open spec fn location_model(l: Location) -> (Seq<char>, Range) {
    (l.uri@, l.range)
}

pub open spec fn location_models(v: Seq<Location>) -> Seq<(Seq<char>, Range)> {
    v.map_values(|l: Location| location_model(l))
}

/// A reference that declares or defines its symbol.
pub open spec fn is_declaration(r: SymbolReference) -> bool {
    r.reference_kind@ == "declaration"@ || r.reference_kind@ == "definition"@
}

/// The locations of the references, in order: declarations and definitions
/// only when `include_declaration`, and none whose URI does not parse.
pub open spec fn reference_locations(refs: Seq<SymbolReference>, include_declaration: bool) -> Seq<
    (Seq<char>, Range),
>
    decreases refs.len(),
{
    if refs.len() == 0 {
        Seq::empty()
    } else {
        let r = reference_locations(refs.drop_last(), include_declaration);
        let x = refs.last();
        if (include_declaration || !is_declaration(x)) && parsed_url(x.uri@) is Some {
            r.push(
                (
                    parsed_url(x.uri@)->Some_0,
                    stored_range(
                        x.range_start_line,
                        x.range_start_char,
                        x.range_end_line,
                        x.range_end_char,
                    ),
                ),
            )
        } else {
            r
        }
    }
}

/// A reference that a request reports: a usage always, a declaration or
/// definition only when asked for, and only where its URI parses.
pub open spec fn reported(x: SymbolReference, include_declaration: bool) -> bool {
    (include_declaration || (x.reference_kind@ != "declaration"@ && x.reference_kind@ != "definition"@))
        && parsed_url(x.uri@) is Some
}

/// Where a reported reference is: its parsed URI and its stored range.
pub open spec fn reported_location(x: SymbolReference) -> (Seq<char>, Range) {
    (
        parsed_url(x.uri@)->Some_0,
        stored_range(x.range_start_line, x.range_start_char, x.range_end_line, x.range_end_char),
    )
}

/// The references found are reported in order, each at its location:
/// declarations and definitions only when asked for, usages always, and
/// none whose URI does not parse.
pub proof fn law_reported_references(refs: Seq<SymbolReference>, include_declaration: bool)
    ensures
        reference_locations(refs, include_declaration) == refs.filter(
            |x: SymbolReference| reported(x, include_declaration),
        ).map_values(|x: SymbolReference| reported_location(x)),
    decreases refs.len(),
{
    reveal_with_fuel(Seq::filter, 1);
    if refs.len() > 0 {
        law_reported_references(refs.drop_last(), include_declaration);
        let f = refs.drop_last().filter(|x: SymbolReference| reported(x, include_declaration));
        assert(f.push(refs.last()).map_values(|x: SymbolReference| reported_location(x)) =~= f.map_values(
            |x: SymbolReference| reported_location(x),
        ).push(reported_location(refs.last())));
    } else {
        assert(refs.filter(|x: SymbolReference| reported(x, include_declaration)) =~= Seq::<SymbolReference>::empty());
    }
}

/// The locations of the references to a symbol (see `reference_locations`).
pub fn find_all_references(references: &Vec<SymbolReference>, include_declaration: bool) -> (r: Vec<
    Location,
>)
    ensures
        location_models(r@) == reference_locations(references@, include_declaration),
{
    let mut out: Vec<Location> = Vec::new();
    let mut i: usize = 0;
    assert(references@.take(0) =~= Seq::<SymbolReference>::empty());
    while i < references.len()
        invariant
            0 <= i <= references@.len(),
            location_models(out@) == reference_locations(
                references@.take(i as int),
                include_declaration,
            ),
        decreases references.len() - i,
    {
        let x = &references[i];
        assert(references@.take(i + 1).drop_last() =~= references@.take(i as int));
        let declares = str_equal(x.reference_kind.as_str(), "declaration") || str_equal(
            x.reference_kind.as_str(),
            "definition",
        );
        if include_declaration || !declares {
            match x.to_location() {
                Ok(l) => {
                    let ghost before = out@;
                    out.push(l);
                    assert(location_models(out@) =~= location_models(before).push(
                        location_model(l),
                    ));
                },
                Err(_) => {},
            }
        }
        i = i + 1;
    }
    assert(references@.take(references@.len() as int) =~= references@);
    out
}

/// The reference search's answer: nothing when no location was found.
pub fn references_response(locations: Vec<Location>) -> (r: Option<Vec<Location>>)
    ensures
        locations@.len() == 0 ==> r is None,
        locations@.len() > 0 ==> r == Some(locations),
{
    if locations.len() == 0 {
        None
    } else {
        Some(locations)
    }
}

/// The line and character reached after the characters of `s`: lines counted
/// by line feeds, characters since the last one.
pub open spec fn end_position(s: Seq<char>) -> (int, int)
    decreases s.len(),
{
    if s.len() == 0 {
        (0, 0)
    } else {
        let (l, c) = end_position(s.drop_last());
        if s.last() == '\n' {
            (l + 1, 0)
        } else {
            (l, c + 1)
        }
    }
}

/// The number of characters of `text` before `pos`, if some prefix of the
/// text ends at `pos`.
pub open spec fn chars_before(text: Seq<char>, pos: Position) -> Option<int> {
    if exists|k: int| 0 <= k <= text.len() && end_position(#[trigger] text.take(k)) == (
        pos.line as int,
        pos.character as int,
    ) {
        Some(
            choose|k: int|
                0 <= k <= text.len() && end_position(#[trigger] text.take(k)) == (
                    pos.line as int,
                    pos.character as int,
                ),
        )
    } else {
        None
    }
}

proof fn lemma_end_position_grows(s: Seq<char>, j: int, k: int)
    requires
        0 <= j < k <= s.len(),
    ensures
        ({
            let (a, b) = end_position(s.take(j));
            let (c, d) = end_position(s.take(k));
            a < c || (a == c && b < d)
        }),
    decreases k - j,
{
    assert(s.take(k).drop_last() =~= s.take(k - 1));
    if j < k - 1 {
        lemma_end_position_grows(s, j, k - 1);
    }
}

/// Prefixes of a text end at different positions.
proof fn lemma_end_position_unique(s: Seq<char>, j: int, k: int)
    requires
        0 <= j <= s.len(),
        0 <= k <= s.len(),
        end_position(s.take(j)) == end_position(s.take(k)),
    ensures
        j == k,
{
    if j < k {
        lemma_end_position_grows(s, j, k);
    } else if k < j {
        lemma_end_position_grows(s, k, j);
    }
}

/// The byte offset of `position` in `text`, found by walking the text one
/// character at a time.
pub fn scan_position_to_byte_offset(text: &str, position: Position) -> (r: Result<
    usize,
    PositionError,
>)
    ensures
        chars_before(text@, position) is None ==> r == Err::<usize, PositionError>(
            PositionError::OutOfBounds,
        ),
        chars_before(text@, position) matches Some(k) ==> (if byte_len(text@.take(k)) <= usize::MAX {
            r == Ok::<usize, PositionError>(byte_len(text@.take(k)) as usize)
        } else {
            r == Err::<usize, PositionError>(PositionError::TooLarge)
        }),
{
    let s = chars_of(text);
    let mut line: u64 = 0;
    let mut character: u64 = 0;
    let mut offset: usize = 0;
    let mut fits = true;
    let mut k: usize = 0;
    let target_line = position.line as u64;
    let target_char = position.character as u64;
    assert(s@.take(0) =~= Seq::<char>::empty());
    while k < s.len()
        invariant
            s@ == text@,
            0 <= k <= s@.len(),
            (line as int, character as int) == end_position(s@.take(k as int)),
            line <= k,
            character <= k,
            fits ==> offset == byte_len(s@.take(k as int)),
            !fits ==> byte_len(s@.take(k as int)) > usize::MAX,
            target_line == position.line,
            target_char == position.character,
            forall|j: int|
                0 <= j < k ==> end_position(#[trigger] s@.take(j)) != (
                    position.line as int,
                    position.character as int,
                ),
        decreases s.len() - k,
    {
        if line == target_line && character == target_char {
            proof {
                assert(chars_before(text@, position) is Some);
                let c = chars_before(text@, position)->Some_0;
                lemma_end_position_unique(s@, c, k as int);
            }
            if fits {
                return Ok(offset);
            } else {
                return Err(PositionError::TooLarge);
            }
        }
        let ch = s[k];
        assert(s@.take(k + 1).drop_last() =~= s@.take(k as int));
        if ch == '\n' {
            line = line + 1;
            character = 0;
        } else {
            character = character + 1;
        }
        proof {
            lemma_byte_len_take_step(s@, k as int);
        }
        if fits {
            match offset.checked_add(char_utf8_width(ch)) {
                Some(v) => offset = v,
                None => fits = false,
            }
        }
        k = k + 1;
    }
    assert(s@.take(s@.len() as int) =~= s@);
    if line == target_line && character == target_char {
        proof {
            assert(chars_before(text@, position) is Some);
            let c = chars_before(text@, position)->Some_0;
            lemma_end_position_unique(s@, c, k as int);
        }
        if fits {
            Ok(offset)
        } else {
            Err(PositionError::TooLarge)
        }
    } else {
        proof {
            if chars_before(text@, position) is Some {
                let c = chars_before(text@, position)->Some_0;
                assert(end_position(s@.take(c)) == (position.line as int, position.character as int));
            }
        }
        Err(PositionError::OutOfBounds)
    }
}

/// Syntax node kinds that are identifiers.
pub open spec fn identifier_kind(kind: Seq<char>) -> bool {
    kind == "lower_case_identifier"@ || kind == "upper_case_identifier"@
}

/// Where the first identifier is among the node under the cursor and its
/// ancestors (their kinds, innermost first), or -1.
pub open spec fn first_identifier(kinds: Seq<String>) -> int
    decreases kinds.len(),
{
    if kinds.len() == 0 {
        -1
    } else if first_identifier(kinds.drop_last()) >= 0 {
        first_identifier(kinds.drop_last())
    } else if identifier_kind(kinds.last()@) {
        kinds.len() - 1
    } else {
        -1
    }
}

proof fn lemma_first_identifier_extends(kinds: Seq<String>, n: int)
    requires
        0 < n <= kinds.len(),
        first_identifier(kinds.take(n)) >= 0,
    ensures
        first_identifier(kinds) == first_identifier(kinds.take(n)),
    decreases kinds.len() - n,
{
    if n < kinds.len() {
        assert(kinds.take(n + 1).drop_last() =~= kinds.take(n));
        lemma_first_identifier_extends(kinds, n + 1);
    } else {
        assert(kinds.take(n) =~= kinds);
    }
}

/// The identifier found is the innermost node, from the one under the
/// cursor outwards, whose kind is a lower- or upper-case identifier; there is
/// none exactly when no such node lies on the way to the root.
pub proof fn law_innermost_identifier(kinds: Seq<String>)
    ensures
        -1 <= first_identifier(kinds) < kinds.len(),
        first_identifier(kinds) >= 0 ==> (kinds[first_identifier(kinds)]@ == "lower_case_identifier"@
            || kinds[first_identifier(kinds)]@ == "upper_case_identifier"@),
        forall|k: int|
            0 <= k < kinds.len() && (k < first_identifier(kinds) || first_identifier(kinds) == -1) ==> (
            #[trigger] kinds[k])@ != "lower_case_identifier"@ && kinds[k]@ != "upper_case_identifier"@,
    decreases kinds.len(),
{
    if kinds.len() > 0 {
        let t = kinds.drop_last();
        law_innermost_identifier(t);
        assert forall|k: int| 0 <= k < t.len() implies t[k] == kinds[k] by {}
    }
}

/// The identifier the cursor is in: the first of the node under the cursor
/// and its ancestors (their kinds, innermost first) that is an identifier;
/// none when no node up to the root is one.
pub fn find_identifier_node(ancestor_kinds: &Vec<String>) -> (r: Option<usize>)
    ensures
        r is None <==> first_identifier(ancestor_kinds@) == -1,
        r matches Some(i) ==> i == first_identifier(ancestor_kinds@),
{
    let mut i: usize = 0;
    assert(ancestor_kinds@.take(0) =~= Seq::<String>::empty());
    while i < ancestor_kinds.len()
        invariant
            0 <= i <= ancestor_kinds@.len(),
            first_identifier(ancestor_kinds@.take(i as int)) == -1,
        decreases ancestor_kinds.len() - i,
    {
        assert(ancestor_kinds@.take(i + 1).drop_last() =~= ancestor_kinds@.take(i as int));
        assert(ancestor_kinds@.take(i + 1).last() == ancestor_kinds@[i as int]);
        let k = ancestor_kinds[i].as_str();
        if str_equal(k, "lower_case_identifier") || str_equal(k, "upper_case_identifier") {
            proof {
                lemma_first_identifier_extends(ancestor_kinds@, i + 1);
            }
            return Some(i);
        }
        i = i + 1;
    }
    assert(ancestor_kinds@.take(ancestor_kinds@.len() as int) =~= ancestor_kinds@);
    None
}

/// Answers a reference request: nothing when no symbol is available under
/// the cursor (`available`, the symbols the file can see by that name);
/// else the locations of the references found for the first of them
/// (`references`), nothing when there are none.
pub fn handle_references(
    available: &Vec<crate::symbols::Symbol>,
    references: &Vec<SymbolReference>,
    include_declaration: bool,
) -> (r: Option<Vec<Location>>)
    ensures
        available@.len() == 0 ==> r is None,
        available@.len() > 0 ==> (reference_locations(references@, include_declaration).len() == 0
            <==> r is None),
        r matches Some(v) ==> location_models(v@) == reference_locations(references@, include_declaration),
{
    if available.len() == 0 {
        return None;
    }
    let locations = find_all_references(references, include_declaration);
    references_response(locations)
}

} // verus!

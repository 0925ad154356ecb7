//! Searching the symbol index: fuzzy scores of names against a query, the
//! ranking of search results, and the lookups that resolve a name in a file.
use vstd::prelude::*;
use crate::chars::is_ascii_upper;
use crate::ordering::{
    lemma_lex_asymmetric, lemma_lex_split, lemma_stable_sorted_in_order, ranked_in_order, weak_order, insert_ranked, lemma_insert_ranked_elements, lemma_stable_sorted_elements, lex_lt, stable_sort, stable_sorted,
    str_less, Ranked,
};
use crate::positions::prefix_bytes;
use crate::symbols::{
    kind_of_number, parsed_url, stored_range, strings_from_json, strings_of_json, ImportInfo, Symbol,
    SymbolInformation, SymbolKind,
};
use crate::protocol::Range;
use crate::line_scan::{trim, trim_chars};
use crate::line_scan::{has_prefix, starts_with};
use crate::ordering::str_equal;
use crate::text::string_from_chars;
use crate::text::{byte_len, chars_of};

verus! {

/// What std's `str::to_lowercase` makes of a text (Unicode lowercase mapping).
pub uninterp spec fn lowercase_of(s: Seq<char>) -> Seq<char>;

/// A text of ASCII characters only.
pub open spec fn is_ascii_text(s: Seq<char>) -> bool {
    forall|i: int| 0 <= i < s.len() ==> (s[i] as u32) < 0x80
}

/// ASCII lowercase of a character; other characters unchanged.
pub open spec fn ascii_lower(c: char) -> char {
    if 'A' <= c && c <= 'Z' {
        ((c as u32) + 32) as char
    } else {
        c
    }
}

/// std's `str::to_lowercase`.  Stated: the result depends on the text alone,
/// and on ASCII text it lowers each letter.
#[verifier::external_body]
fn to_lowercase(s: &str) -> (r: String)
    ensures
        r@ == lowercase_of(s@),
        is_ascii_text(s@) ==> r@ == s@.map_values(|c: char| ascii_lower(c)),
{
    s.to_lowercase()
}

/// `char::to_ascii_lowercase`.
pub fn char_ascii_lower(c: char) -> (r: char)
    ensures
        r == ascii_lower(c),
{
    if 'A' <= c && c <= 'Z' {
        let b = (c as u32) + 32;
        assert(b < 0x80);
        let u = b as u8;
        u as char
    } else {
        c
    }
}

/// The state of the matching walk: query characters matched, score, run of
/// consecutive matches, and index of the last match.
pub struct Walk {
    pub matched: int,
    pub score: int,
    pub run: int,
    pub last: int,
}

/// One step of the walk at index `i` of the lowercased name `s`: a match of
/// the next query character scores 5, or 10 plus the run length when it
/// follows the last match; 15 more when the original name has an ASCII
/// capital there (tested against its byte length), 3 more in the first half.
pub open spec fn walk_step(w: Walk, s: Seq<char>, q: Seq<char>, name: Seq<char>, i: int) -> Walk {
    if w.matched < q.len() && q[w.matched] == s[i] {
        let consecutive = i == w.last + 1;
        let run = if consecutive { w.run + 1 } else { 0 };
        let base = if consecutive { 10 + run } else { 5 };
        let capital = if i < byte_len(name) && i < name.len() && is_ascii_upper(name[i]) {
            15int
        } else {
            0int
        };
        let early = if i < s.len() / 2 { 3int } else { 0int };
        Walk { matched: w.matched + 1, score: w.score + base + capital + early, run, last: i }
    } else {
        w
    }
}

/// The walk over the first `n` characters of `s`.
pub open spec fn walk(s: Seq<char>, q: Seq<char>, name: Seq<char>, n: int) -> Walk
    decreases n,
{
    if n <= 0 {
        Walk { matched: 0, score: 0, run: 0, last: 0 }
    } else {
        walk_step(walk(s, q, name, n - 1), s, q, name, n - 1)
    }
}

/// The length penalty: the lowercased name's length (as an `i32`) divided by ten.
pub open spec fn length_penalty(s: Seq<char>) -> int {
    let p = (s.len() as i32) as int;
    if p >= 0 {
        p / 10
    } else {
        -((-p) / 10)
    }
}

/// The score before the prefix bonus, of a full match.
pub open spec fn penalized(s: Seq<char>, w: Walk) -> int {
    let v = w.score - length_penalty(s);
    if v >= 1 {
        v
    } else {
        1
    }
}

/// The fuzzy score of a name against query characters: 100 for an empty
/// query, 1000 for a name equal to the query (both lowercased), 0 when the
/// query's characters do not all appear in order, else the walk's score less
/// the length penalty (at least 1), plus 50 when the name starts with the query.
pub open spec fn fuzzy_score(name: Seq<char>, query: Seq<char>) -> int {
    let s = lowercase_of(name);
    let q = query.map_values(|c: char| ascii_lower(c));
    if query.len() == 0 {
        100
    } else if s == q {
        1000
    } else {
        let w = walk(s, q, name, s.len() as int);
        if w.matched < q.len() {
            0
        } else {
            penalized(s, w) + if q.len() <= s.len() && s.take(q.len() as int) == q {
                50int
            } else {
                0int
            }
        }
    }
}

/// The ranges of the fuzzy score: never negative; 0 exactly for a non-empty
/// query, not equal to the name, whose characters do not all appear in order;
/// a name that starts with such a query, all of whose characters appear,
/// scores more than 50, and any other match at least 1.
pub proof fn law_fuzzy_score_ranges(name: Seq<char>, query: Seq<char>)
    ensures
        ({
            let s = lowercase_of(name);
            let q = query.map_values(|c: char| ascii_lower(c));
            let w = walk(s, q, name, s.len() as int);
            &&& fuzzy_score(name, query) >= 0
            &&& fuzzy_score(name, query) == 0 <==> (query.len() > 0 && s != q && w.matched < q.len())
            &&& (query.len() > 0 && s != q && w.matched >= q.len() && q.len() <= s.len() && s.take(
                q.len() as int,
            ) == q) ==> fuzzy_score(name, query) > 50
            &&& fuzzy_score(name, query) != 0 ==> fuzzy_score(name, query) >= 1
        }),
{
}

/// The score's arithmetic stays within `i32`.
pub open spec fn fuzzy_in_range(name: Seq<char>, query: Seq<char>) -> bool {
    let s = lowercase_of(name);
    let q = query.map_values(|c: char| ascii_lower(c));
    let w = walk(s, q, name, s.len() as int);
    w.score <= i32::MAX && w.score - length_penalty(s) <= i32::MAX && penalized(s, w) + 50
        <= i32::MAX
}

proof fn lemma_walk_basic(s: Seq<char>, q: Seq<char>, name: Seq<char>, k: int)
    requires
        0 <= k,
    ensures
        0 <= walk(s, q, name, k).run <= walk(s, q, name, k).matched <= k,
        0 <= walk(s, q, name, k).score,
        0 <= walk(s, q, name, k).last,
        k == 0 || walk(s, q, name, k).last < k,
    decreases k,
{
    if k > 0 {
        lemma_walk_basic(s, q, name, k - 1);
    }
}

proof fn lemma_walk_grows(s: Seq<char>, q: Seq<char>, name: Seq<char>, j: int, k: int)
    requires
        0 <= j <= k,
    ensures
        walk(s, q, name, j).score <= walk(s, q, name, k).score,
        walk(s, q, name, j).matched <= walk(s, q, name, k).matched,
    decreases k - j,
{
    if j < k {
        lemma_walk_basic(s, q, name, k - 1);
        lemma_walk_grows(s, q, name, j, k - 1);
    }
}

proof fn lemma_walk_bound(s: Seq<char>, q: Seq<char>, name: Seq<char>, k: int)
    requires
        0 <= k,
    ensures
        0 <= walk(s, q, name, k).matched <= q.len(),
        0 <= walk(s, q, name, k).run <= walk(s, q, name, k).matched,
        walk(s, q, name, k).score <= walk(s, q, name, k).matched * (28 + q.len()),
    decreases k,
{
    lemma_walk_basic(s, q, name, k);
    if k > 0 {
        lemma_walk_bound(s, q, name, k - 1);
        let w = walk(s, q, name, k - 1);
        let m = w.matched;
        let ql = q.len() as int;
        assert((m + 1) * (28 + ql) == m * (28 + ql) + 28 + ql) by (nonlinear_arith);
    }
}

/// A query of fewer than 40000 characters keeps every name's fuzzy score
/// within `i32`.
pub proof fn lemma_short_query_in_range(name: Seq<char>, query: Seq<char>)
    requires
        query.len() < 40000,
    ensures
        fuzzy_in_range(name, query),
{
    let s = lowercase_of(name);
    let q = query.map_values(|c: char| ascii_lower(c));
    let w = walk(s, q, name, s.len() as int);
    lemma_walk_bound(s, q, name, s.len() as int);
    let m = w.matched;
    let ql = q.len() as int;
    assert(m * (28 + ql) <= 40000 * 40028) by (nonlinear_arith)
        requires
            0 <= m <= ql,
            ql < 40000,
    ;
    let p = (s.len() as i32) as int;
    assert(-2147483648 <= p <= 2147483647);
}

/// Whether a workspace query is short enough for the ranking's arithmetic:
/// its lowercased text has fewer than 40000 characters.
pub fn query_fits_scoring(query: &str) -> (r: bool)
    ensures
        r == (lowercase_of(query@).len() < 40000),
        r ==> forall|name: Seq<char>| #[trigger] fuzzy_in_range(name, lowercase_of(query@)),
{
    let lower = to_lowercase(query);
    let n = chars_of(lower.as_str()).len();
    if n < 40000 {
        assert forall|name: Seq<char>| #[trigger] fuzzy_in_range(name, lowercase_of(query@)) by {
            lemma_short_query_in_range(name, lowercase_of(query@));
        }
        true
    } else {
        false
    }
}

/// The fuzzy score of `symbol_name` against query characters (see `fuzzy_score`).
pub fn calculate_fuzzy_score(symbol_name: &str, query_chars: &[char]) -> (r: i32)
    requires
        fuzzy_in_range(symbol_name@, query_chars@),
    ensures
        r == fuzzy_score(symbol_name@, query_chars@),
{
    if query_chars.len() == 0 {
        return 100;
    }
    let lower = to_lowercase(symbol_name);
    let s = chars_of(lower.as_str());
    let name = chars_of(symbol_name);
    let mut q: Vec<char> = Vec::new();
    let mut i: usize = 0;
    while i < query_chars.len()
        invariant
            0 <= i <= query_chars@.len(),
            q@ == query_chars@.take(i as int).map_values(|c: char| ascii_lower(c)),
        decreases query_chars.len() - i,
    {
        q.push(char_ascii_lower(query_chars[i]));
        i = i + 1;
        assert(q@ =~= query_chars@.take(i as int).map_values(|c: char| ascii_lower(c)));
    }
    assert(query_chars@.take(query_chars@.len() as int) =~= query_chars@);
    let ghost gs = lowercase_of(symbol_name@);
    let ghost gq = query_chars@.map_values(|c: char| ascii_lower(c));
    assert(s@ == gs);
    assert(q@ == gq);
    if s.len() == q.len() {
        let mut same = true;
        let mut k: usize = 0;
        while k < s.len()
            invariant
                s@.len() == q@.len(),
                0 <= k <= s@.len(),
                same <==> forall|j: int| 0 <= j < k ==> s@[j] == q@[j],
            decreases s.len() - k,
        {
            if s[k] != q[k] {
                same = false;
            }
            k = k + 1;
        }
        if same {
            assert(s@ =~= q@);
            return 1000;
        }
        assert(s@ != q@) by {
            let j = choose|j: int| 0 <= j < k && s@[j] != q@[j];
        }
    }
    let name_bytes = prefix_bytes(name.as_slice(), name.len());
    assert(name@.take(name@.len() as int) =~= name@);
    let n = s.len();
    let half = n / 2;
    let mut matched: usize = 0;
    let mut score: i32 = 0;
    let mut run: i32 = 0;
    let mut last: usize = 0;
    let mut si: usize = 0;
    proof {
        lemma_walk_grows(gs, gq, symbol_name@, 0, n as int);
    }
    while matched < q.len() && si < n
        invariant
            n == s@.len(),
            half == n / 2,
            s@ == gs,
            q@ == gq,
            name@ == symbol_name@,
            name_bytes matches Some(b) ==> b == byte_len(symbol_name@),
            name_bytes is None ==> byte_len(symbol_name@) > usize::MAX,
            0 <= si <= n,
            walk(gs, gq, symbol_name@, si as int) == (Walk {
                matched: matched as int,
                score: score as int,
                run: run as int,
                last: last as int,
            }),
            walk(gs, gq, symbol_name@, n as int).score <= i32::MAX,
        decreases n - si,
    {
        proof {
            lemma_walk_grows(gs, gq, symbol_name@, si + 1, n as int);
            lemma_walk_basic(gs, gq, symbol_name@, si as int);
        }
        if q[matched] == s[si] {
            matched = matched + 1;
            if last < usize::MAX && si == last + 1 {
                run = run + 1;
                score = score + 10 + run;
            } else {
                run = 0;
                score = score + 5;
            }
            let below_bytes = match name_bytes {
                Some(b) => si < b,
                None => true,
            };
            if below_bytes && si < name.len() && is_upper_ascii(name[si]) {
                score = score + 15;
            }
            if si < half {
                score = score + 3;
            }
            last = si;
        }
        si = si + 1;
    }
    proof {
        if matched >= q.len() && si < n {
            lemma_walk_done(gs, gq, symbol_name@, si as int, n as int);
        }
    }
    if matched < q.len() {
        return 0;
    }
    let ghost w = walk(gs, gq, symbol_name@, n as int);
    assert(score as int == w.score);
    assert(w.score - length_penalty(gs) <= i32::MAX);
    assert(penalized(gs, w) + 50 <= i32::MAX);
    let lp = n as i32;
    let penalty: i32 = if lp >= 0 {
        lp / 10
    } else if lp == i32::MIN {
        -214748364
    } else {
        -((-lp) / 10)
    };
    proof {
        lemma_walk_basic(gs, gq, symbol_name@, n as int);
        assert(penalty == length_penalty(gs));
    }
    let mut total = if score - penalty >= 1 {
        score - penalty
    } else {
        1
    };
    let mut prefix = q.len() <= s.len();
    let mut k: usize = 0;
    while prefix && k < q.len()
        invariant
            q@.len() <= s@.len() || !prefix,
            0 <= k <= q@.len(),
            prefix ==> forall|j: int| 0 <= j < k ==> s@[j] == q@[j],
            !prefix ==> !(q@.len() <= s@.len() && s@.take(q@.len() as int) == q@),
        decreases q.len() - k,
    {
        if s[k] != q[k] {
            prefix = false;
            assert(s@.take(q@.len() as int)[k as int] != q@[k as int]);
        }
        k = k + 1;
    }
    if prefix {
        assert(s@.take(q@.len() as int) =~= q@);
        total = total + 50;
    }
    total
}

/// Past the last query character, the walk changes nothing.
proof fn lemma_walk_done(s: Seq<char>, q: Seq<char>, name: Seq<char>, i: int, n: int)
    requires
        0 <= i <= n,
        walk(s, q, name, i).matched >= q.len(),
    ensures
        walk(s, q, name, n) == walk(s, q, name, i),
    decreases n - i,
{
    if i < n {
        lemma_walk_done(s, q, name, i, n - 1);
    }
}

fn is_upper_ascii(c: char) -> (r: bool)
    ensures
        r == is_ascii_upper(c),
{
    'A' <= c && c <= 'Z'
}

fn copy_opt(o: &Option<String>) -> (r: Option<String>)
    ensures
        r == *o,
{
    match o {
        Some(t) => Some(t.clone()),
        None => None,
    }
}

/// A copy of a symbol.
pub fn copy_symbol(s: &Symbol) -> (r: Symbol)
    ensures
        r == *s,
{
    Symbol {
        id: s.id,
        name: s.name.clone(),
        kind: s.kind,
        uri: s.uri.clone(),
        range_start_line: s.range_start_line,
        range_start_char: s.range_start_char,
        range_end_line: s.range_end_line,
        range_end_char: s.range_end_char,
        container: copy_opt(&s.container),
        signature: copy_opt(&s.signature),
        documentation: copy_opt(&s.documentation),
        created_at: copy_opt(&s.created_at),
    }
}

/// A symbol with its score.
pub struct ScoredSymbol {
    pub symbol: Symbol,
    pub score: i32,
}

impl Ranked for ScoredSymbol {
    /// Higher scores first; equal scores by name.
    open spec fn precedes(&self, other: &Self) -> bool {
        self.score > other.score || (self.score == other.score && lex_lt(
            self.symbol.name@,
            other.symbol.name@,
        ))
    }

    fn goes_before(&self, other: &Self) -> (r: bool) {
        self.score > other.score || (self.score == other.score && str_less(
            self.symbol.name.as_str(),
            other.symbol.name.as_str(),
        ))
    }
}

/// The score of a symbol against a query, both lowercased first.
pub open spec fn symbol_score(s: Symbol, query: Seq<char>) -> int {
    fuzzy_score(lowercase_of(s.name@), lowercase_of(query))
}

/// The symbols with a positive score, each with its score, in order.
pub open spec fn scored_symbols(ss: Seq<Symbol>, query: Seq<char>) -> Seq<ScoredSymbol>
    decreases ss.len(),
{
    if ss.len() == 0 {
        Seq::empty()
    } else {
        let r = scored_symbols(ss.drop_last(), query);
        let sc = symbol_score(ss.last(), query);
        if sc > 0 {
            r.push(ScoredSymbol { symbol: ss.last(), score: sc as i32 })
        } else {
            r
        }
    }
}

/// Every symbol's score stays within `i32`.
pub open spec fn scores_in_range(ss: Seq<Symbol>, query: Seq<char>) -> bool {
    forall|i: int|
        0 <= i < ss.len() ==> fuzzy_in_range(lowercase_of((#[trigger] ss[i]).name@), lowercase_of(query))
}

/// No scored symbol has a higher score than one before it.
pub open spec fn scores_descend(s: Seq<ScoredSymbol>) -> bool {
    forall|i: int, j: int| 0 <= i < j < s.len() ==> (#[trigger] s[i]).score >= (#[trigger] s[j]).score
}

proof fn lemma_insert_keeps_scores_descending(s: Seq<ScoredSymbol>, x: ScoredSymbol)
    requires
        scores_descend(s),
    ensures
        scores_descend(insert_ranked(s, x)),
    decreases s.len(),
{
    if s.len() > 0 {
        if x.precedes(&s.last()) {
            let t = s.drop_last();
            assert(scores_descend(t)) by {
                assert forall|i: int, j: int| 0 <= i < j < t.len() implies (#[trigger] t[i]).score >= (
                #[trigger] t[j]).score by {
                    assert(t[i] == s[i] && t[j] == s[j]);
                }
            }
            lemma_insert_keeps_scores_descending(t, x);
            lemma_insert_ranked_elements(t, x);
            let u = insert_ranked(t, x);
            let r = insert_ranked(s, x);
            assert(r == u.push(s.last()));
            assert forall|i: int| 0 <= i < u.len() implies (#[trigger] u[i]).score >= s.last().score by {
                if u[i] != x {
                    let k = choose|k: int| 0 <= k < t.len() && u[i] == #[trigger] t[k];
                    assert(s[k] == t[k]);
                    assert(s[k].score >= s[s.len() - 1].score);
                }
            }
            assert forall|i: int, j: int| 0 <= i < j < r.len() implies (#[trigger] r[i]).score >= (
            #[trigger] r[j]).score by {
                assert(r[i] == u[i]);
                if j < u.len() {
                    assert(r[j] == u[j]);
                } else {
                    assert(r[j] == s.last());
                }
            }
        } else {
            let r = insert_ranked(s, x);
            assert(r == s.push(x));
            assert forall|i: int, j: int| 0 <= i < j < r.len() implies (#[trigger] r[i]).score >= (
            #[trigger] r[j]).score by {
                assert(r[i] == s[i]);
                if j < s.len() {
                    assert(r[j] == s[j]);
                } else {
                    assert(r[j] == x);
                    assert(s[i].score >= s[s.len() - 1].score || i == s.len() - 1);
                }
            }
        }
    }
}

proof fn lemma_sorted_scores_descend(s: Seq<ScoredSymbol>)
    ensures
        scores_descend(stable_sorted(s)),
    decreases s.len(),
{
    if s.len() > 0 {
        lemma_sorted_scores_descend(s.drop_last());
        lemma_insert_keeps_scores_descending(stable_sorted(s.drop_last()), s.last());
    }
}

proof fn lemma_scored_symbols_scores(ss: Seq<Symbol>, query: Seq<char>)
    requires
        scores_in_range(ss, query),
    ensures
        forall|i: int| 0 <= i < scored_symbols(ss, query).len() ==> {
            let x = #[trigger] scored_symbols(ss, query)[i];
            x.score as int == symbol_score(x.symbol, query) && symbol_score(x.symbol, query) > 0
        },
    decreases ss.len(),
{
    if ss.len() > 0 {
        let t = ss.drop_last();
        assert forall|i: int| 0 <= i < t.len() implies fuzzy_in_range(
            lowercase_of((#[trigger] t[i]).name@),
            lowercase_of(query),
        ) by {
            assert(t[i] == ss[i]);
        }
        lemma_scored_symbols_scores(t, query);
        assert(fuzzy_in_range(lowercase_of(ss[ss.len() - 1].name@), lowercase_of(query)));
    }
}

proof fn lemma_scored_weak_order()
    ensures
        weak_order::<ScoredSymbol>(),
{
    assert forall|x: ScoredSymbol, y: ScoredSymbol| #[trigger] x.precedes(&y) implies !y.precedes(&x) by {
        lemma_lex_asymmetric(x.symbol.name@, y.symbol.name@);
    }
    assert forall|x: ScoredSymbol, y: ScoredSymbol, z: ScoredSymbol|
        #![trigger x.precedes(&y), y.precedes(&z)] #![trigger x.precedes(&z), y.precedes(&z)]
        #![trigger x.precedes(&y), x.precedes(&z)]
        x.precedes(&z) implies x.precedes(&y) || y.precedes(&z) by {
        lemma_lex_split(x.symbol.name@, y.symbol.name@, z.symbol.name@);
    }
}

/// Search results come best first: every ranked symbol has a positive fuzzy
/// score, which the ranking records, and no symbol is ranked after one with
/// a lower score, so an exact match comes before partial ones and a limit
/// drops the lowest scores; symbols of equal score come in name order.
pub proof fn law_search_results_best_first(symbols: Seq<Symbol>, query: Seq<char>)
    requires
        scores_in_range(symbols, query),
    ensures
        ({
            let ranked = stable_sorted(scored_symbols(symbols, query));
            &&& forall|i: int| 0 <= i < ranked.len() ==> (#[trigger] ranked[i]).score as int == symbol_score(
                ranked[i].symbol,
                query,
            ) && symbol_score(ranked[i].symbol, query) > 0
            &&& forall|i: int, j: int|
                0 <= i < j < ranked.len() ==> symbol_score((#[trigger] ranked[i]).symbol, query) >= symbol_score(
                    (#[trigger] ranked[j]).symbol,
                    query,
                )
            &&& forall|i: int, j: int|
                #![trigger ranked[i], ranked[j]]
                0 <= i < j < ranked.len() && symbol_score(ranked[i].symbol, query) == symbol_score(
                    ranked[j].symbol,
                    query,
                ) ==> !lex_lt(ranked[j].symbol.name@, ranked[i].symbol.name@)
        }),
{
    lemma_scored_weak_order();
    lemma_stable_sorted_in_order(scored_symbols(symbols, query));
    let sc = scored_symbols(symbols, query);
    let ranked = stable_sorted(sc);
    lemma_scored_symbols_scores(symbols, query);
    lemma_stable_sorted_elements(sc);
    lemma_sorted_scores_descend(sc);
    assert forall|i: int| 0 <= i < ranked.len() implies (#[trigger] ranked[i]).score as int == symbol_score(
        ranked[i].symbol,
        query,
    ) && symbol_score(ranked[i].symbol, query) > 0 by {
        let k = choose|k: int| 0 <= k < sc.len() && ranked[i] == #[trigger] sc[k];
    }
    assert forall|i: int, j: int| 0 <= i < j < ranked.len() implies symbol_score((#[trigger] ranked[i]).symbol, query)
        >= symbol_score((#[trigger] ranked[j]).symbol, query) by {
        let a = choose|k: int| 0 <= k < sc.len() && ranked[i] == #[trigger] sc[k];
        let b = choose|k: int| 0 <= k < sc.len() && ranked[j] == #[trigger] sc[k];
        assert(ranked[i].score >= ranked[j].score);
    }
}

/// The symbols that match the query, best first (by score, then name), at
/// most `limit` of them.
pub fn apply_fuzzy_matching(symbols: &[Symbol], query: &str, limit: usize) -> (r: Vec<Symbol>)
    requires
        scores_in_range(symbols@, query@),
    ensures
        ({
            let ranked = stable_sorted(scored_symbols(symbols@, query@));
            let n = if limit < ranked.len() { limit as int } else { ranked.len() as int };
            r@ == ranked.take(n).map_values(|x: ScoredSymbol| x.symbol)
        }),
{
    let query_lower = to_lowercase(query);
    let query_chars = chars_of(query_lower.as_str());
    let mut scored: Vec<ScoredSymbol> = Vec::new();
    let mut i: usize = 0;
    assert(symbols@.take(0) =~= Seq::<Symbol>::empty());
    while i < symbols.len()
        invariant
            0 <= i <= symbols@.len(),
            query_chars@ == lowercase_of(query@),
            scores_in_range(symbols@, query@),
            scored@ == scored_symbols(symbols@.take(i as int), query@),
        decreases symbols.len() - i,
    {
        assert(symbols@.take(i + 1).drop_last() =~= symbols@.take(i as int));
        let name_lower = to_lowercase(symbols[i].name.as_str());
        assert(fuzzy_in_range(lowercase_of(symbols@[i as int].name@), lowercase_of(query@)));
        let score = calculate_fuzzy_score(name_lower.as_str(), query_chars.as_slice());
        if score > 0 {
            scored.push(ScoredSymbol { symbol: copy_symbol(&symbols[i]), score });
        }
        i = i + 1;
    }
    assert(symbols@.take(symbols@.len() as int) =~= symbols@);
    let ghost all = scored@;
    let sorted = stable_sort(scored);
    let n = if limit < sorted.len() {
        limit
    } else {
        sorted.len()
    };
    let mut out: Vec<Symbol> = Vec::new();
    let mut rest = sorted;
    let ghost rs = rest@;
    let mut k: usize = 0;
    while k < n
        invariant
            0 <= k <= n <= rs.len(),
            rest@ == rs.skip(k as int),
            out@ == rs.take(k as int).map_values(|x: ScoredSymbol| x.symbol),
        decreases n - k,
    {
        let x = rest.remove(0);
        assert(x == rs[k as int]);
        assert(rest@ =~= rs.skip(k + 1));
        out.push(x.symbol);
        k = k + 1;
        assert(out@ =~= rs.take(k as int).map_values(|x: ScoredSymbol| x.symbol));
    }
    out
}

/// A query of the symbols of a module.
#[derive(Debug, Clone)]
pub enum ModuleQuery {
    /// The module's symbols of this name.
    ByName { module_name: String, symbol_name: String },
    /// The module's symbols whose name starts with this prefix.
    ByPrefix { module_name: String, prefix: String },
}

/// A module query by texts.
pub enum QueryModel {
    ByName(Seq<char>, Seq<char>),
    ByPrefix(Seq<char>, Seq<char>),
}

pub open spec fn query_model(q: ModuleQuery) -> QueryModel {
    match q {
        ModuleQuery::ByName { module_name, symbol_name } => QueryModel::ByName(module_name@, symbol_name@),
        ModuleQuery::ByPrefix { module_name, prefix } => QueryModel::ByPrefix(module_name@, prefix@),
    }
}

pub open spec fn query_models(v: Seq<ModuleQuery>) -> Seq<QueryModel> {
    v.map_values(|q: ModuleQuery| query_model(q))
}

/// The queries one import contributes to resolving `name`: the name itself
/// in a module exposing everything or exposing the name; with an alias and no
/// exposing list, the name after `alias.` when it starts with it.
pub open spec fn import_lookups(i: ImportInfo, name: Seq<char>) -> Seq<QueryModel> {
    if i.exposing_all {
        seq![QueryModel::ByName(i.imported_module@, name)]
    } else {
        match i.imported_symbols {
            Some(json) => match strings_of_json(json@) {
                Some(names) => if names.contains(name) {
                    seq![QueryModel::ByName(i.imported_module@, name)]
                } else {
                    Seq::empty()
                },
                None => Seq::empty(),
            },
            None => match i.alias_name {
                Some(a) => if starts_with(name, a@ + seq!['.']) {
                    seq![QueryModel::ByName(i.imported_module@, name.skip(a@.len() as int + 1))]
                } else {
                    Seq::empty()
                },
                None => Seq::empty(),
            },
        }
    }
}

/// The queries of all imports, in order.
pub open spec fn available_lookups(imports: Seq<ImportInfo>, name: Seq<char>) -> Seq<QueryModel>
    decreases imports.len(),
{
    if imports.len() == 0 {
        Seq::empty()
    } else {
        available_lookups(imports.drop_last(), name) + import_lookups(imports.last(), name)
    }
}

/// The module queries that find the symbols of `symbol_name` available
/// through a file's imports (see `import_lookups`).
pub fn plan_available_symbols(imports: &Vec<ImportInfo>, symbol_name: &str) -> (r: Vec<ModuleQuery>)
    ensures
        query_models(r@) == available_lookups(imports@, symbol_name@),
{
    let mut out: Vec<ModuleQuery> = Vec::new();
    let mut i: usize = 0;
    assert(imports@.take(0) =~= Seq::<ImportInfo>::empty());
    while i < imports.len()
        invariant
            0 <= i <= imports@.len(),
            query_models(out@) == available_lookups(imports@.take(i as int), symbol_name@),
        decreases imports.len() - i,
    {
        let imp = &imports[i];
        assert(imports@.take(i + 1).drop_last() =~= imports@.take(i as int));
        let ghost before = out@;
        if imp.exposing_all {
            out.push(ModuleQuery::ByName { module_name: imp.imported_module.clone(), symbol_name: symbol_name.to_owned() });
            assert(query_models(out@) =~= query_models(before) + import_lookups(*imp, symbol_name@));
        } else {
            match &imp.imported_symbols {
                Some(json) => {
                    match strings_from_json(json.as_str()) {
                        Some(names) => {
                            let mut listed = false;
                            let mut k: usize = 0;
                            while k < names.len()
                                invariant
                                    0 <= k <= names@.len(),
                                    listed <==> exists|x: int| 0 <= x < k && names@[x]@ == symbol_name@,
                                decreases names.len() - k,
                            {
                                if str_equal(names[k].as_str(), symbol_name) {
                                    listed = true;
                                }
                                k = k + 1;
                            }
                            proof {
                                let nv = names.deep_view();
                                assert(nv.len() == names@.len());
                                if nv.contains(symbol_name@) {
                                    let x = choose|x: int| 0 <= x < nv.len() && nv[x] == symbol_name@;
                                    assert(names@[x]@ == symbol_name@);
                                }
                                if listed {
                                    let x = choose|x: int| 0 <= x < k && names@[x]@ == symbol_name@;
                                    assert(nv[x] == symbol_name@);
                                }
                            }
                            if listed {
                                out.push(ModuleQuery::ByName { module_name: imp.imported_module.clone(), symbol_name: symbol_name.to_owned() });
                                assert(query_models(out@) =~= query_models(before).push(QueryModel::ByName(imp.imported_module@, symbol_name@)));
                            } else {
                                assert(query_models(out@) =~= query_models(before));
                            }
                        },
                        None => {
                            assert(query_models(out@) =~= query_models(before));
                        },
                    }
                },
                None => {
                    match &imp.alias_name {
                        Some(a) => {
                            let mut pre = chars_of(a.as_str());
                            pre.push('.');
                            assert(pre@ =~= a@ + seq!['.']);
                            let name = chars_of(symbol_name);
                            if has_prefix(name.as_slice(), pre.as_slice()) {
                                let n = name.len();
                                let mut rest: Vec<char> = Vec::new();
                                let mut k: usize = pre.len();
                                while k < n
                                    invariant
                                        pre@.len() <= k <= n == name@.len(),
                                        rest@ == name@.subrange(pre@.len() as int, k as int),
                                    decreases n - k,
                                {
                                    rest.push(name[k]);
                                    k = k + 1;
                                    assert(rest@ =~= name@.subrange(pre@.len() as int, k as int));
                                }
                                assert(rest@ =~= symbol_name@.skip(a@.len() as int + 1));
                                let stripped = string_from_chars(rest.as_slice());
                                out.push(ModuleQuery::ByName { module_name: imp.imported_module.clone(), symbol_name: stripped });
                                assert(query_models(out@) =~= query_models(before).push(QueryModel::ByName(imp.imported_module@, stripped@)));
                            } else {
                                assert(query_models(out@) =~= query_models(before));
                            }
                        },
                        None => {
                            assert(query_models(out@) =~= query_models(before));
                        },
                    }
                },
            }
            assert(query_models(out@) =~= query_models(before) + import_lookups(*imp, symbol_name@));
        }
        i = i + 1;
    }
    assert(imports@.take(imports@.len() as int) =~= imports@);
    out
}

/// The queries one import contributes to completing `prefix`: the prefix in
/// a module exposing everything, else each exposed name that starts with it.
pub open spec fn import_completion_lookups(i: ImportInfo, prefix: Seq<char>) -> Seq<QueryModel> {
    if i.exposing_all {
        seq![QueryModel::ByPrefix(i.imported_module@, prefix)]
    } else {
        match i.imported_symbols {
            Some(json) => match strings_of_json(json@) {
                Some(names) => names_with_prefix(i.imported_module@, names, prefix),
                None => Seq::empty(),
            },
            None => Seq::empty(),
        }
    }
}

/// One query by name for each name that starts with the prefix, in order.
pub open spec fn names_with_prefix(module: Seq<char>, names: Seq<Seq<char>>, prefix: Seq<char>) -> Seq<
    QueryModel,
>
    decreases names.len(),
{
    if names.len() == 0 {
        Seq::empty()
    } else {
        let r = names_with_prefix(module, names.drop_last(), prefix);
        if starts_with(names.last(), prefix) {
            r.push(QueryModel::ByName(module, names.last()))
        } else {
            r
        }
    }
}

pub open spec fn completion_lookups(imports: Seq<ImportInfo>, prefix: Seq<char>) -> Seq<QueryModel>
    decreases imports.len(),
{
    if imports.len() == 0 {
        Seq::empty()
    } else {
        completion_lookups(imports.drop_last(), prefix) + import_completion_lookups(imports.last(), prefix)
    }
}

/// The module queries that find completion candidates through a file's
/// imports (see `import_completion_lookups`).
pub fn plan_completion_symbols(imports: &Vec<ImportInfo>, prefix: &str) -> (r: Vec<ModuleQuery>)
    ensures
        query_models(r@) == completion_lookups(imports@, prefix@),
{
    let pre = chars_of(prefix);
    let mut out: Vec<ModuleQuery> = Vec::new();
    let mut i: usize = 0;
    assert(imports@.take(0) =~= Seq::<ImportInfo>::empty());
    while i < imports.len()
        invariant
            0 <= i <= imports@.len(),
            pre@ == prefix@,
            query_models(out@) == completion_lookups(imports@.take(i as int), prefix@),
        decreases imports.len() - i,
    {
        let imp = &imports[i];
        assert(imports@.take(i + 1).drop_last() =~= imports@.take(i as int));
        let ghost before = out@;
        if imp.exposing_all {
            out.push(ModuleQuery::ByPrefix { module_name: imp.imported_module.clone(), prefix: prefix.to_owned() });
            assert(query_models(out@) =~= query_models(before) + import_completion_lookups(*imp, prefix@));
        } else {
            match &imp.imported_symbols {
                Some(json) => {
                    match strings_from_json(json.as_str()) {
                        Some(names) => {
                            let ghost nv = names.deep_view();
                            let mut k: usize = 0;
                            assert(nv.take(0) =~= Seq::<Seq<char>>::empty());
                            while k < names.len()
                                invariant
                                    0 <= k <= names@.len(),
                                    nv == names.deep_view(),
                                    pre@ == prefix@,
                                    query_models(out@) == query_models(before) + names_with_prefix(
                                        imp.imported_module@,
                                        nv.take(k as int),
                                        prefix@,
                                    ),
                                decreases names.len() - k,
                            {
                                assert(nv.take(k + 1).drop_last() =~= nv.take(k as int));
                                assert(nv[k as int] == names@[k as int]@);
                                let nc = chars_of(names[k].as_str());
                                if has_prefix(nc.as_slice(), pre.as_slice()) {
                                    let ghost b2 = out@;
                                    out.push(ModuleQuery::ByName { module_name: imp.imported_module.clone(), symbol_name: names[k].clone() });
                                    assert(query_models(out@) =~= query_models(b2).push(QueryModel::ByName(imp.imported_module@, nv[k as int])));
                                }
                                k = k + 1;
                            }
                            assert(nv.take(nv.len() as int) =~= nv);
                        },
                        None => {
                            assert(query_models(out@) =~= query_models(before));
                        },
                    }
                },
                None => {
                    assert(query_models(out@) =~= query_models(before));
                },
            }
            assert(query_models(out@) =~= query_models(before) + import_completion_lookups(*imp, prefix@));
        }
        i = i + 1;
    }
    assert(imports@.take(imports@.len() as int) =~= imports@);
    out
}

/// The symbols of the file with this name.
pub open spec fn named(ss: Seq<Symbol>, name: Seq<char>) -> Seq<Symbol>
    decreases ss.len(),
{
    if ss.len() == 0 {
        Seq::empty()
    } else {
        let r = named(ss.drop_last(), name);
        if ss.last().name@ == name {
            r.push(ss.last())
        } else {
            r
        }
    }
}

/// The symbols whose name starts with the prefix.
pub open spec fn prefixed(ss: Seq<Symbol>, prefix: Seq<char>) -> Seq<Symbol>
    decreases ss.len(),
{
    if ss.len() == 0 {
        Seq::empty()
    } else {
        let r = prefixed(ss.drop_last(), prefix);
        if starts_with(ss.last().name@, prefix) {
            r.push(ss.last())
        } else {
            r
        }
    }
}

/// The symbols kept for a prefix are exactly those whose name begins with
/// it, in their order.
pub proof fn law_prefixed_keeps_matching_names(ss: Seq<Symbol>, prefix: Seq<char>)
    ensures
        prefixed(ss, prefix) == ss.filter(
            |s: Symbol| prefix.len() <= s.name@.len() && s.name@.take(prefix.len() as int) == prefix,
        ),
    decreases ss.len(),
{
    reveal_with_fuel(Seq::filter, 1);
    if ss.len() > 0 {
        law_prefixed_keeps_matching_names(ss.drop_last(), prefix);
    } else {
        assert(ss.filter(
            |s: Symbol| prefix.len() <= s.name@.len() && s.name@.take(prefix.len() as int) == prefix,
        ) =~= Seq::<Symbol>::empty());
    }
}

/// The local symbols of a name, in order.
pub fn symbols_named(symbols: Vec<Symbol>, name: &str) -> (r: Vec<Symbol>)
    ensures
        r@ == named(symbols@, name@),
{
    let mut out: Vec<Symbol> = Vec::new();
    let mut rest = symbols;
    let ghost all = rest@;
    let n = rest.len();
    let mut i: usize = 0;
    assert(all.take(0) =~= Seq::<Symbol>::empty());
    while i < n
        invariant
            0 <= i <= n == all.len(),
            rest@ == all.skip(i as int),
            out@ == named(all.take(i as int), name@),
        decreases n - i,
    {
        let x = rest.remove(0);
        assert(x == all[i as int]);
        assert(rest@ =~= all.skip(i + 1));
        assert(all.take(i + 1).drop_last() =~= all.take(i as int));
        if str_equal(x.name.as_str(), name) {
            out.push(x);
        }
        i = i + 1;
    }
    assert(all.take(n as int) =~= all);
    out
}

/// The local symbols whose name starts with the prefix, in order.
pub fn symbols_with_prefix(symbols: Vec<Symbol>, prefix: &str) -> (r: Vec<Symbol>)
    ensures
        r@ == prefixed(symbols@, prefix@),
{
    let pre = chars_of(prefix);
    let mut out: Vec<Symbol> = Vec::new();
    let mut rest = symbols;
    let ghost all = rest@;
    let n = rest.len();
    let mut i: usize = 0;
    assert(all.take(0) =~= Seq::<Symbol>::empty());
    while i < n
        invariant
            0 <= i <= n == all.len(),
            pre@ == prefix@,
            rest@ == all.skip(i as int),
            out@ == prefixed(all.take(i as int), prefix@),
        decreases n - i,
    {
        let x = rest.remove(0);
        assert(x == all[i as int]);
        assert(rest@ =~= all.skip(i + 1));
        assert(all.take(i + 1).drop_last() =~= all.take(i as int));
        let nc = chars_of(x.name.as_str());
        if has_prefix(nc.as_slice(), pre.as_slice()) {
            out.push(x);
        }
        i = i + 1;
    }
    assert(all.take(n as int) =~= all);
    out
}

impl Ranked for Symbol {
    /// By name.
    open spec fn precedes(&self, other: &Self) -> bool {
        lex_lt(self.name@, other.name@)
    }

    fn goes_before(&self, other: &Self) -> (r: bool) {
        str_less(self.name.as_str(), other.name.as_str())
    }
}

/// The symbols without one that repeats the name and URI of the one kept
/// just before it.
pub open spec fn dedup_symbols(ss: Seq<Symbol>) -> Seq<Symbol>
    decreases ss.len(),
{
    if ss.len() == 0 {
        ss
    } else {
        let r = dedup_symbols(ss.drop_last());
        if r.len() > 0 && r.last().name@ == ss.last().name@ && r.last().uri@ == ss.last().uri@ {
            r
        } else {
            r.push(ss.last())
        }
    }
}

pub proof fn lemma_symbol_weak_order()
    ensures
        weak_order::<Symbol>(),
{
    assert forall|x: Symbol, y: Symbol| #[trigger] x.precedes(&y) implies !y.precedes(&x) by {
        lemma_lex_asymmetric(x.name@, y.name@);
    }
    assert forall|x: Symbol, y: Symbol, z: Symbol|
        #![trigger x.precedes(&y), y.precedes(&z)] #![trigger x.precedes(&z), y.precedes(&z)]
        #![trigger x.precedes(&y), x.precedes(&z)]
        x.precedes(&z) implies x.precedes(&y) || y.precedes(&z) by {
        lemma_lex_split(x.name@, y.name@, z.name@);
    }
}

proof fn lemma_dedup_symbols_from(ss: Seq<Symbol>)
    ensures
        dedup_symbols(ss).len() <= ss.len(),
        forall|j: int|
            0 <= j < dedup_symbols(ss).len() ==> exists|k: int| 0 <= k < ss.len() && #[trigger] dedup_symbols(ss)[j] == ss[k],
        dedup_symbols(ss).len() > 0 ==> dedup_symbols(ss).last() == ss.last() || (dedup_symbols(ss).last().name@
            == ss.last().name@ && dedup_symbols(ss).last().uri@ == ss.last().uri@),
        ss.len() > 0 ==> dedup_symbols(ss).len() > 0,
    decreases ss.len(),
{
    if ss.len() > 0 {
        let t = ss.drop_last();
        lemma_dedup_symbols_from(t);
        let d = dedup_symbols(ss);
        assert forall|j: int| 0 <= j < d.len() implies exists|k: int| 0 <= k < ss.len() && #[trigger] d[j] == ss[k] by {
            if j < dedup_symbols(t).len() {
                let k = choose|k: int| 0 <= k < t.len() && dedup_symbols(t)[j] == #[trigger] t[k];
                assert(d[j] == dedup_symbols(t)[j]);
                assert(t[k] == ss[k]);
            } else {
                assert(d[j] == ss[ss.len() - 1]);
            }
        }
    }
}

/// Completion candidates come in name order, and no candidate repeats the
/// name and URI of the one just before it; each is one of the input
/// symbols.
pub proof fn law_completion_symbols_by_name(ss: Seq<Symbol>)
    ensures
        ({
            let d = dedup_symbols(stable_sorted(ss));
            &&& forall|i: int, j: int| #![trigger d[i], d[j]] 0 <= i < j < d.len() ==> !lex_lt(d[j].name@, d[i].name@)
            &&& forall|i: int| 0 < i < d.len() ==> !((#[trigger] d[i]).name@ == d[i - 1].name@ && d[i].uri@ == d[i - 1].uri@)
            &&& forall|j: int| 0 <= j < d.len() ==> exists|k: int| 0 <= k < ss.len() && #[trigger] d[j] == ss[k]
        }),
{
    lemma_symbol_weak_order();
    lemma_stable_sorted_in_order(ss);
    lemma_stable_sorted_elements(ss);
    lemma_dedup_ordered(stable_sorted(ss));
    let st = stable_sorted(ss);
    let d = dedup_symbols(st);
    lemma_dedup_symbols_from(st);
    assert forall|j: int| 0 <= j < d.len() implies exists|k: int| 0 <= k < ss.len() && #[trigger] d[j] == ss[k] by {
        let m = choose|m: int| 0 <= m < st.len() && d[j] == #[trigger] st[m];
        let k = choose|k: int| 0 <= k < ss.len() && st[m] == #[trigger] ss[k];
    }
}

proof fn lemma_dedup_ordered(st: Seq<Symbol>)
    requires
        ranked_in_order(st),
    ensures
        ({
            let d = dedup_symbols(st);
            &&& forall|i: int, j: int| #![trigger d[i], d[j]] 0 <= i < j < d.len() ==> !lex_lt(d[j].name@, d[i].name@)
            &&& forall|i: int| 0 < i < d.len() ==> !((#[trigger] d[i]).name@ == d[i - 1].name@ && d[i].uri@ == d[i - 1].uri@)
        }),
    decreases st.len(),
{
    if st.len() > 0 {
        let t = st.drop_last();
        assert(ranked_in_order(t)) by {
            assert forall|i: int, j: int| #![trigger t[i], t[j]] 0 <= i < j < t.len() implies !t[j].precedes(&t[i]) by {
                assert(t[i] == st[i] && t[j] == st[j]);
            }
        }
        lemma_dedup_ordered(t);
        lemma_dedup_symbols_from(t);
        let dt = dedup_symbols(t);
        let d = dedup_symbols(st);
        if !(dt.len() > 0 && dt.last().name@ == st.last().name@ && dt.last().uri@ == st.last().uri@) {
            assert(d == dt.push(st.last()));
            assert forall|i: int| 0 <= i < dt.len() implies !lex_lt(st.last().name@, (#[trigger] dt[i]).name@) by {
                let k = choose|k: int| 0 <= k < t.len() && dt[i] == #[trigger] t[k];
                assert(t[k] == st[k]);
                assert(!st[st.len() - 1].precedes(&st[k]));
            }
            assert forall|i: int, j: int| #![trigger d[i], d[j]] 0 <= i < j < d.len() implies !lex_lt(d[j].name@, d[i].name@) by {
                assert(d[i] == dt[i]);
                if j < dt.len() {
                    assert(d[j] == dt[j]);
                }
            }
            assert forall|i: int| 0 < i < d.len() implies !((#[trigger] d[i]).name@ == d[i - 1].name@ && d[i].uri@ == d[i - 1].uri@) by {
                if i < dt.len() {
                    assert(d[i] == dt[i] && d[i - 1] == dt[i - 1]);
                }
            }
        }
    }
}

/// The completion candidates: sorted by name, repeats of a name and URI
/// dropped, at most `limit` (a negative limit read as a huge `usize`).
pub fn finish_completion_symbols(symbols: Vec<Symbol>, limit: i32) -> (r: Vec<Symbol>)
    ensures
        ({
            let d = dedup_symbols(stable_sorted(symbols@));
            let cap = (limit as usize) as int;
            r@ == if cap < d.len() { d.take(cap) } else { d }
        }),
{
    let sorted = stable_sort(symbols);
    let ghost st = sorted@;
    let mut out: Vec<Symbol> = Vec::new();
    let mut rest = sorted;
    let n = rest.len();
    let mut i: usize = 0;
    assert(st.take(0) =~= Seq::<Symbol>::empty());
    while i < n
        invariant
            0 <= i <= n == st.len(),
            rest@ == st.skip(i as int),
            out@ == dedup_symbols(st.take(i as int)),
        decreases n - i,
    {
        let x = rest.remove(0);
        assert(x == st[i as int]);
        assert(rest@ =~= st.skip(i + 1));
        assert(st.take(i + 1).drop_last() =~= st.take(i as int));
        let k = out.len();
        let repeat = k > 0 && str_equal(out[k - 1].name.as_str(), x.name.as_str()) && str_equal(
            out[k - 1].uri.as_str(),
            x.uri.as_str(),
        );
        if !repeat {
            out.push(x);
        }
        i = i + 1;
    }
    assert(st.take(n as int) =~= st);
    let cap = limit as usize;
    if cap < out.len() {
        out.truncate(cap);
    }
    out
}

/// A workspace-symbol result by its texts.
pub type InformationModel = (Seq<char>, SymbolKind, Seq<char>, Range, Option<Seq<char>>);

pub open spec fn information_model(i: SymbolInformation) -> InformationModel {
    (
        i.name@,
        i.kind,
        i.location.uri@,
        i.location.range,
        match i.container_name {
            Some(c) => Some(c@),
            None => None,
        },
    )
}

/// The results for the symbols whose URI parses, in order.
pub open spec fn information_of(ss: Seq<Symbol>) -> Seq<InformationModel>
    decreases ss.len(),
{
    if ss.len() == 0 {
        Seq::empty()
    } else {
        let r = information_of(ss.drop_last());
        let x = ss.last();
        match parsed_url(x.uri@) {
            Some(u) => r.push(
                (
                    x.name@,
                    kind_of_number(x.kind),
                    u,
                    stored_range(x.range_start_line, x.range_start_char, x.range_end_line, x.range_end_char),
                    match x.container {
                        Some(c) => Some(c@),
                        None => None,
                    },
                ),
            ),
            None => r,
        }
    }
}

/// The symbols as workspace-symbol results; those whose URI does not parse are left out.
pub fn symbols_to_information(symbols: &Vec<Symbol>) -> (r: Vec<SymbolInformation>)
    ensures
        r@.map_values(|i: SymbolInformation| information_model(i)) == information_of(symbols@),
{
    let mut out: Vec<SymbolInformation> = Vec::new();
    let mut i: usize = 0;
    assert(symbols@.take(0) =~= Seq::<Symbol>::empty());
    while i < symbols.len()
        invariant
            0 <= i <= symbols@.len(),
            out@.map_values(|i: SymbolInformation| information_model(i)) == information_of(
                symbols@.take(i as int),
            ),
        decreases symbols.len() - i,
    {
        assert(symbols@.take(i + 1).drop_last() =~= symbols@.take(i as int));
        let ghost before = out@;
        match symbols[i].to_symbol_information() {
            Ok(info) => {
                out.push(info);
                assert(out@.map_values(|i: SymbolInformation| information_model(i)) =~= before.map_values(
                    |i: SymbolInformation| information_model(i),
                ).push(information_model(info)));
            },
            Err(_) => {},
        }
        i = i + 1;
    }
    assert(symbols@.take(symbols@.len() as int) =~= symbols@);
    out
}

/// A workspace-symbol query: the trimmed text, and how many results to ask
/// for (50 for a blank query, else 100).
pub fn workspace_query(query: &str) -> (r: (String, i32))
    ensures
        r.0@ == trim(query@),
        r.1 == if trim(query@).len() == 0 { 50i32 } else { 100i32 },
{
    let t = trim_chars(chars_of(query).as_slice());
    let limit: i32 = if t.len() == 0 {
        50
    } else {
        100
    };
    (string_from_chars(t.as_slice()), limit)
}

/// How many results each kind of match (exact, prefix, substring) may give.
pub fn bucket_limit(limit: i32) -> (r: i32)
    ensures
        r as int == if limit >= 0 {
            limit as int / 3
        } else {
            -((-(limit as int)) / 3)
        },
{
    limit / 3
}

/// The ranked results of a non-blank workspace search: exact, prefix and
/// substring matches, in that order, ranked by fuzzy score (see
/// `apply_fuzzy_matching`).
pub fn rank_search_results(
    exact: Vec<Symbol>,
    prefix: Vec<Symbol>,
    substring: Vec<Symbol>,
    query: &str,
    limit: i32,
) -> (r: Vec<Symbol>)
    requires
        scores_in_range(exact@ + prefix@ + substring@, query@),
    ensures
        ({
            let ranked = stable_sorted(scored_symbols(exact@ + prefix@ + substring@, query@));
            let cap = (limit as usize) as int;
            let n = if cap < ranked.len() { cap } else { ranked.len() as int };
            r@ == ranked.take(n).map_values(|x: ScoredSymbol| x.symbol)
        }),
{
    let mut all = exact;
    let mut p = prefix;
    let mut q = substring;
    let ghost (a, b, c) = (all@, p@, q@);
    all.append(&mut p);
    all.append(&mut q);
    assert(all@ == a + b + c);
    apply_fuzzy_matching(all.as_slice(), query, limit as usize)
}

/// The ranking of `rank_search_results`, when the query is short enough for
/// its arithmetic (see `query_fits_scoring`); `None` when it is not.
pub fn rank_scorable_results(
    exact: Vec<Symbol>,
    prefix: Vec<Symbol>,
    substring: Vec<Symbol>,
    query: &str,
    limit: i32,
) -> (r: Option<Vec<Symbol>>)
    ensures
        r is Some <==> lowercase_of(query@).len() < 40000,
        r matches Some(v) ==> ({
            let ranked = stable_sorted(scored_symbols(exact@ + prefix@ + substring@, query@));
            let cap = (limit as usize) as int;
            let n = if cap < ranked.len() { cap } else { ranked.len() as int };
            v@ == ranked.take(n).map_values(|x: ScoredSymbol| x.symbol)
        }),
{
    if !query_fits_scoring(query) {
        return None;
    }
    let ghost all = exact@ + prefix@ + substring@;
    assert forall|i: int| 0 <= i < all.len() implies fuzzy_in_range(
        lowercase_of((#[trigger] all[i]).name@),
        lowercase_of(query@),
    ) by {}
    Some(rank_search_results(exact, prefix, substring, query, limit))
}

/// Answers a workspace-symbol request from the symbols the search found
/// (`None` when no index is at hand): their workspace-symbol results, those
/// whose URI does not parse left out.
pub fn get_workspace_symbols(found: Option<Vec<Symbol>>) -> (r: Option<Vec<SymbolInformation>>)
    ensures
        found is None <==> r is None,
        r matches Some(v) ==> v@.map_values(|i: SymbolInformation| information_model(i)) == information_of(
            found->0@,
        ),
{
    match found {
        Some(symbols) => Some(symbols_to_information(&symbols)),
        None => None,
    }
}

} // verus!

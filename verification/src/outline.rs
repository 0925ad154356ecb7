//! The outline of a document: its indexed symbols arranged as a two-level
//! tree.  Modules and stray constructors come first; then the other symbols,
//! each top-level one holding the constructors of its type and the symbols
//! nested in its range, ordered by position.
use vstd::prelude::*;
use crate::ordering::{Ranked, stable_sort, stable_sorted, insert_ranked};
use crate::ordering::str_equal;
use crate::protocol::Range;
use crate::symbols::{
    kind_of_number, stored_range, DocumentSymbol, Symbol, SymbolError, SymbolKind,
};

verus! {

/// A text that may be missing.
pub open spec fn opt_text(o: Option<String>) -> Option<Seq<char>> {
    match o {
        Some(s) => Some(s@),
        None => None,
    }
}

/// An outline entry, by the texts of its fields.
pub struct OutlineEntry {
    pub name: Seq<char>,
    pub detail: Option<Seq<char>>,
    pub kind: SymbolKind,
    pub range: Range,
    pub selection_range: Range,
}

/// A top-level outline entry and the entries below it.
pub struct OutlineNode {
    pub entry: OutlineEntry,
    pub children: Option<Seq<OutlineEntry>>,
}

pub open spec fn entry_of(d: DocumentSymbol) -> OutlineEntry {
    OutlineEntry {
        name: d.name@,
        detail: opt_text(d.detail),
        kind: d.kind,
        range: d.range,
        selection_range: d.selection_range,
    }
}

pub open spec fn entries_of(v: Seq<DocumentSymbol>) -> Seq<OutlineEntry> {
    v.map_values(|d: DocumentSymbol| entry_of(d))
}

pub open spec fn node_of(d: DocumentSymbol) -> OutlineNode {
    OutlineNode {
        entry: entry_of(d),
        children: match d.children {
            Some(v) => Some(entries_of(v@)),
            None => None,
        },
    }
}

pub open spec fn nodes_of(v: Seq<DocumentSymbol>) -> Seq<OutlineNode> {
    v.map_values(|d: DocumentSymbol| node_of(d))
}

/// An entry with nothing below it.
pub open spec fn is_leaf(d: DocumentSymbol) -> bool {
    d.children is None
}

/// An entry whose children, if any, have nothing below them.
pub open spec fn is_two_level(d: DocumentSymbol) -> bool {
    match d.children {
        Some(v) => forall|i: int| 0 <= i < v@.len() ==> is_leaf(#[trigger] v@[i]),
        None => true,
    }
}

/// The entry an indexed symbol becomes.
pub open spec fn symbol_entry(s: Symbol) -> OutlineEntry {
    let r = stored_range(s.range_start_line, s.range_start_char, s.range_end_line, s.range_end_char);
    OutlineEntry {
        name: s.name@,
        detail: opt_text(s.signature),
        kind: kind_of_number(s.kind),
        range: r,
        selection_range: r,
    }
}

/// `a` starts before `b`.
pub open spec fn starts_before(a: Range, b: Range) -> bool {
    a.start.line < b.start.line || (a.start.line == b.start.line && a.start.character
        < b.start.character)
}

/// `x` inserted after every element of `s` that does not start after it,
/// scanning from the back.
pub open spec fn insert_by_start<T>(s: Seq<T>, x: T, rng: spec_fn(T) -> Range) -> Seq<T>
    decreases s.len(),
{
    if s.len() == 0 {
        seq![x]
    } else if starts_before(rng(x), rng(s.last())) {
        insert_by_start(s.drop_last(), x, rng).push(s.last())
    } else {
        s.push(x)
    }
}

/// `s` sorted stably by where the elements start.
pub open spec fn sort_by_start<T>(s: Seq<T>, rng: spec_fn(T) -> Range) -> Seq<T>
    decreases s.len(),
{
    if s.len() == 0 {
        s
    } else {
        insert_by_start(sort_by_start(s.drop_last(), rng), s.last(), rng)
    }
}

/// No element starts before one that comes earlier.
pub open spec fn sorted_by_start<T>(s: Seq<T>, rng: spec_fn(T) -> Range) -> bool {
    forall|i: int, j: int| 0 <= i < j < s.len() ==> !starts_before(rng(#[trigger] s[j]), rng(#[trigger] s[i]))
}

proof fn lemma_insert_by_start_elements<T>(s: Seq<T>, x: T, rng: spec_fn(T) -> Range)
    ensures
        insert_by_start(s, x, rng).len() == s.len() + 1,
        forall|k: int| 0 <= k < insert_by_start(s, x, rng).len() ==> #[trigger] insert_by_start(s, x, rng)[k] == x
            || exists|i: int| 0 <= i < s.len() && insert_by_start(s, x, rng)[k] == s[i],
    decreases s.len(),
{
    if s.len() > 0 && starts_before(rng(x), rng(s.last())) {
        let t = s.drop_last();
        lemma_insert_by_start_elements(t, x, rng);
        let r = insert_by_start(s, x, rng);
        assert forall|k: int| 0 <= k < r.len() implies #[trigger] r[k] == x
            || exists|i: int| 0 <= i < s.len() && r[k] == s[i] by {
            if k == r.len() - 1 {
                assert(r[k] == s[s.len() - 1]);
            } else {
                assert(r[k] == insert_by_start(t, x, rng)[k]);
                if r[k] != x {
                    let i = choose|i: int| 0 <= i < t.len() && insert_by_start(t, x, rng)[k] == t[i];
                    assert(t[i] == s[i]);
                }
            }
        }
    } else if s.len() > 0 {
        let r = insert_by_start(s, x, rng);
        assert forall|k: int| 0 <= k < r.len() implies #[trigger] r[k] == x
            || exists|i: int| 0 <= i < s.len() && r[k] == s[i] by {
            if k < s.len() {
                assert(r[k] == s[k]);
            }
        }
    }
}

proof fn lemma_insert_by_start_sorted<T>(s: Seq<T>, x: T, rng: spec_fn(T) -> Range)
    requires
        sorted_by_start(s, rng),
    ensures
        sorted_by_start(insert_by_start(s, x, rng), rng),
    decreases s.len(),
{
    if s.len() == 0 {
    } else if starts_before(rng(x), rng(s.last())) {
        let t = s.drop_last();
        assert(sorted_by_start(t, rng)) by {
            assert forall|i: int, j: int| 0 <= i < j < t.len() implies !starts_before(rng(#[trigger] t[j]), rng(#[trigger] t[i])) by {
                assert(t[i] == s[i] && t[j] == s[j]);
            }
        }
        lemma_insert_by_start_sorted(t, x, rng);
        lemma_insert_by_start_elements(t, x, rng);
        let u = insert_by_start(t, x, rng);
        let r = insert_by_start(s, x, rng);
        assert(r == u.push(s.last()));
        assert forall|i: int, j: int| 0 <= i < j < r.len() implies !starts_before(rng(#[trigger] r[j]), rng(#[trigger] r[i])) by {
            if j == r.len() - 1 {
                assert(r[j] == s.last());
                assert(r[i] == u[i]);
                if u[i] != x {
                    let k = choose|k: int| 0 <= k < t.len() && u[i] == t[k];
                    assert(t[k] == s[k]);
                    assert(!starts_before(rng(s[s.len() - 1]), rng(s[k])));
                }
            } else {
                assert(r[i] == u[i] && r[j] == u[j]);
            }
        }
    } else {
        let r = insert_by_start(s, x, rng);
        assert forall|i: int, j: int| 0 <= i < j < r.len() implies !starts_before(rng(#[trigger] r[j]), rng(#[trigger] r[i])) by {
            if j == r.len() - 1 {
                assert(r[j] == x);
                assert(r[i] == s[i]);
                if i < s.len() - 1 {
                    assert(!starts_before(rng(s[s.len() - 1]), rng(s[i])));
                }
            } else {
                assert(r[i] == s[i] && r[j] == s[j]);
            }
        }
    }
}

/// Sorting by start gives a sequence in which nothing starts before an
/// earlier element.
pub proof fn law_sort_by_start_sorted<T>(s: Seq<T>, rng: spec_fn(T) -> Range)
    ensures
        sorted_by_start(sort_by_start(s, rng), rng),
    decreases s.len(),
{
    if s.len() > 0 {
        law_sort_by_start_sorted(s.drop_last(), rng);
        lemma_insert_by_start_sorted(sort_by_start(s.drop_last(), rng), s.last(), rng);
    }
}

pub open spec fn entry_range(e: OutlineEntry) -> Range {
    e.range
}

pub open spec fn node_range(n: OutlineNode) -> Range {
    n.entry.range
}

impl Ranked for DocumentSymbol {
    open spec fn precedes(&self, other: &Self) -> bool {
        starts_before(self.range, other.range)
    }

    fn goes_before(&self, other: &Self) -> (r: bool) {
        self.range.start.line < other.range.start.line || (self.range.start.line
            == other.range.start.line && self.range.start.character
            < other.range.start.character)
    }
}

proof fn lemma_insert_entries(s: Seq<DocumentSymbol>, x: DocumentSymbol)
    ensures
        entries_of(insert_ranked(s, x)) == insert_by_start(
            entries_of(s),
            entry_of(x),
            |e: OutlineEntry| entry_range(e),
        ),
    decreases s.len(),
{
    let rng = |e: OutlineEntry| entry_range(e);
    if s.len() == 0 {
        assert(entries_of(seq![x]) =~= seq![entry_of(x)]);
    } else {
        assert(entries_of(s).drop_last() =~= entries_of(s.drop_last()));
        assert(entries_of(s).last() == entry_of(s.last()));
        if x.precedes(&s.last()) {
            lemma_insert_entries(s.drop_last(), x);
            assert(entries_of(insert_ranked(s.drop_last(), x).push(s.last())) =~= entries_of(
                insert_ranked(s.drop_last(), x),
            ).push(entry_of(s.last())));
        } else {
            assert(entries_of(s.push(x)) =~= entries_of(s).push(entry_of(x)));
        }
    }
}

/// Sorting symbols and then taking their entries gives the entries sorted.
pub proof fn lemma_sorted_entries(v: Seq<DocumentSymbol>)
    ensures
        entries_of(stable_sorted(v)) == sort_by_start(entries_of(v), |e: OutlineEntry| entry_range(e)),
    decreases v.len(),
{
    if v.len() > 0 {
        lemma_sorted_entries(v.drop_last());
        lemma_insert_entries(stable_sorted(v.drop_last()), v.last());
        assert(entries_of(v).drop_last() =~= entries_of(v.drop_last()));
        assert(entries_of(v).last() == entry_of(v.last()));
    } else {
        assert(entries_of(v) =~= Seq::<OutlineEntry>::empty());
    }
}

proof fn lemma_insert_nodes(s: Seq<DocumentSymbol>, x: DocumentSymbol)
    ensures
        nodes_of(insert_ranked(s, x)) == insert_by_start(
            nodes_of(s),
            node_of(x),
            |n: OutlineNode| node_range(n),
        ),
    decreases s.len(),
{
    if s.len() == 0 {
        assert(nodes_of(seq![x]) =~= seq![node_of(x)]);
    } else {
        assert(nodes_of(s).drop_last() =~= nodes_of(s.drop_last()));
        assert(nodes_of(s).last() == node_of(s.last()));
        if x.precedes(&s.last()) {
            lemma_insert_nodes(s.drop_last(), x);
            assert(nodes_of(insert_ranked(s.drop_last(), x).push(s.last())) =~= nodes_of(
                insert_ranked(s.drop_last(), x),
            ).push(node_of(s.last())));
        } else {
            assert(nodes_of(s.push(x)) =~= nodes_of(s).push(node_of(x)));
        }
    }
}

/// Sorting symbols and then taking their nodes gives the nodes sorted.
pub proof fn lemma_sorted_nodes(v: Seq<DocumentSymbol>)
    ensures
        nodes_of(stable_sorted(v)) == sort_by_start(nodes_of(v), |n: OutlineNode| node_range(n)),
    decreases v.len(),
{
    if v.len() > 0 {
        lemma_sorted_nodes(v.drop_last());
        lemma_insert_nodes(stable_sorted(v.drop_last()), v.last());
        assert(nodes_of(v).drop_last() =~= nodes_of(v.drop_last()));
        assert(nodes_of(v).last() == node_of(v.last()));
    } else {
        assert(nodes_of(v) =~= Seq::<OutlineNode>::empty());
    }
}

pub open spec fn is_module_symbol(s: Symbol) -> bool {
    kind_of_number(s.kind) == SymbolKind::MODULE
}

pub open spec fn is_constructor_symbol(s: Symbol) -> bool {
    kind_of_number(s.kind) == SymbolKind::CONSTRUCTOR
}

/// Modules, and constructors of no type, head the outline.
pub open spec fn heads_outline(s: Symbol) -> bool {
    is_module_symbol(s) || (is_constructor_symbol(s) && s.container is None)
}

/// The entries that head the outline, in input order.
pub open spec fn head_entries(ss: Seq<Symbol>) -> Seq<OutlineEntry>
    decreases ss.len(),
{
    if ss.len() == 0 {
        Seq::empty()
    } else {
        let r = head_entries(ss.drop_last());
        if heads_outline(ss.last()) {
            r.push(symbol_entry(ss.last()))
        } else {
            r
        }
    }
}

/// The constructors of the type named `t`, in input order.
pub open spec fn constructors_of(ss: Seq<Symbol>, t: Seq<char>) -> Seq<OutlineEntry>
    decreases ss.len(),
{
    if ss.len() == 0 {
        Seq::empty()
    } else {
        let r = constructors_of(ss.drop_last(), t);
        if is_constructor_symbol(ss.last()) && opt_text(ss.last().container) == Some(t) {
            r.push(symbol_entry(ss.last()))
        } else {
            r
        }
    }
}

/// Where the entry named `n` is in `m`, or -1.
pub open spec fn name_index(m: Seq<OutlineEntry>, n: Seq<char>) -> int
    decreases m.len(),
{
    if m.len() == 0 {
        -1
    } else if m.last().name == n {
        m.len() - 1
    } else {
        name_index(m.drop_last(), n)
    }
}

/// The symbols to arrange by range, one per name: a later symbol of a name
/// takes the place of an earlier one.
pub open spec fn ranked_entries(ss: Seq<Symbol>) -> Seq<OutlineEntry>
    decreases ss.len(),
{
    if ss.len() == 0 {
        Seq::empty()
    } else {
        let m = ranked_entries(ss.drop_last());
        let s = ss.last();
        if !is_module_symbol(s) && !is_constructor_symbol(s) {
            let j = name_index(m, s.name@);
            if j >= 0 {
                m.update(j, symbol_entry(s))
            } else {
                m.push(symbol_entry(s))
            }
        } else {
            m
        }
    }
}

/// `inner` lies within `outer`, ends included.
pub open spec fn contained(inner: Range, outer: Range) -> bool {
    (outer.start.line < inner.start.line || (outer.start.line == inner.start.line
        && outer.start.character <= inner.start.character)) && (outer.end.line > inner.end.line
        || (outer.end.line == inner.end.line && outer.end.character >= inner.end.character))
}

/// No other entry's range holds the range of `m[i]`.
pub open spec fn is_top(m: Seq<OutlineEntry>, i: int) -> bool {
    forall|k: int|
        0 <= k < m.len() ==> (#[trigger] m[k]).name == m[i].name || !contained(m[i].range, m[k].range)
}

pub open spec fn is_type_kind(k: SymbolKind) -> bool {
    k == SymbolKind::CLASS || k == SymbolKind::ENUM || k == SymbolKind::STRUCT
}

/// The constructors that go below a type entry.
pub open spec fn constructor_children(ss: Seq<Symbol>, e: OutlineEntry) -> Option<Seq<OutlineEntry>> {
    if is_type_kind(e.kind) && constructors_of(ss, e.name).len() > 0 {
        Some(constructors_of(ss, e.name))
    } else {
        None
    }
}

/// Among the first `n` entries, those not yet placed that lie within `e`.
pub open spec fn nested_candidates(m: Seq<OutlineEntry>, p: Seq<bool>, e: OutlineEntry, n: int) -> Seq<
    OutlineEntry,
>
    decreases n,
{
    if n <= 0 {
        Seq::empty()
    } else {
        let r = nested_candidates(m, p, e, n - 1);
        let o = m[n - 1];
        if !p[n - 1] && o.name != e.name && contained(o.range, e.range) {
            r.push(o)
        } else {
            r
        }
    }
}

/// What goes below a top-level entry: its constructors, then the entries
/// nested in it, by position.
pub open spec fn children_for(ss: Seq<Symbol>, m: Seq<OutlineEntry>, p: Seq<bool>, e: OutlineEntry) -> Option<
    Seq<OutlineEntry>,
> {
    let nested = sort_by_start(nested_candidates(m, p, e, m.len() as int), |x: OutlineEntry| entry_range(x));
    let c = constructor_children(ss, e);
    if nested.len() == 0 {
        c
    } else {
        Some(
            match c {
                Some(v) => v,
                None => Seq::empty(),
            } + nested,
        )
    }
}

/// The first pass over the first `i` ranked entries: which entries are placed,
/// and the top-level nodes made, in order.
pub open spec fn first_pass(ss: Seq<Symbol>, m: Seq<OutlineEntry>, i: int) -> (Seq<bool>, Seq<OutlineNode>)
    decreases i,
{
    if i <= 0 {
        (Seq::new(m.len(), |k: int| false), Seq::empty())
    } else {
        let (p, roots) = first_pass(ss, m, i - 1);
        let e = m[i - 1];
        if p[i - 1] || !is_top(m, i - 1) {
            (p, roots)
        } else {
            (
                Seq::new(
                    m.len(),
                    |k: int| p[k] || k == i - 1 || (m[k].name != e.name && contained(m[k].range, e.range)),
                ),
                roots.push(OutlineNode { entry: e, children: children_for(ss, m, p, e) }),
            )
        }
    }
}

/// The entries among the first `n` that the first pass did not place, each
/// with its constructors.
pub open spec fn leftover_nodes(ss: Seq<Symbol>, m: Seq<OutlineEntry>, p: Seq<bool>, n: int) -> Seq<
    OutlineNode,
>
    decreases n,
{
    if n <= 0 {
        Seq::empty()
    } else {
        let r = leftover_nodes(ss, m, p, n - 1);
        if !p[n - 1] {
            r.push(OutlineNode { entry: m[n - 1], children: constructor_children(ss, m[n - 1]) })
        } else {
            r
        }
    }
}

/// The outline of a document's symbols.
pub open spec fn outline_of(ss: Seq<Symbol>) -> Seq<OutlineNode> {
    let m = ranked_entries(ss);
    let (p, roots) = first_pass(ss, m, m.len() as int);
    head_entries(ss).map_values(|e: OutlineEntry| OutlineNode { entry: e, children: None })
        + sort_by_start(roots + leftover_nodes(ss, m, p, m.len() as int), |n: OutlineNode| node_range(n))
}

/// The outline's order: first the modules and the constructors without a
/// type, in input order, then every other entry sorted by where it starts.
pub proof fn law_outline_order(ss: Seq<Symbol>)
    ensures
        ({
            let o = outline_of(ss);
            let h = head_entries(ss).len() as int;
            &&& o.take(h) == head_entries(ss).map_values(
                |e: OutlineEntry| OutlineNode { entry: e, children: None },
            )
            &&& sorted_by_start(o.skip(h), |n: OutlineNode| node_range(n))
        }),
{
    let m = ranked_entries(ss);
    let (p, roots) = first_pass(ss, m, m.len() as int);
    let heads = head_entries(ss).map_values(|e: OutlineEntry| OutlineNode { entry: e, children: None });
    let rest = sort_by_start(roots + leftover_nodes(ss, m, p, m.len() as int), |n: OutlineNode| node_range(n));
    let o = outline_of(ss);
    assert(o == heads + rest);
    assert(o.take(heads.len() as int) =~= heads);
    assert(o.skip(heads.len() as int) =~= rest);
    law_sort_by_start_sorted(roots + leftover_nodes(ss, m, p, m.len() as int), |n: OutlineNode| node_range(n));
}

/// A node of the ranked part of the outline: its entry is that of a symbol
/// that is neither a module nor a constructor, and a type's constructors come
/// first among its children.
pub open spec fn ranked_node_ok(ss: Seq<Symbol>, n: OutlineNode) -> bool {
    &&& n.entry.kind != SymbolKind::MODULE
    &&& n.entry.kind != SymbolKind::CONSTRUCTOR
    &&& (constructor_children(ss, n.entry) matches Some(v) ==> (n.children matches Some(w) && v.len()
        <= w.len() && w.take(v.len() as int) == v))
}

proof fn lemma_ranked_entries_kinds(ss: Seq<Symbol>)
    ensures
        forall|k: int| 0 <= k < ranked_entries(ss).len() ==> (#[trigger] ranked_entries(ss)[k]).kind
            != SymbolKind::MODULE && ranked_entries(ss)[k].kind != SymbolKind::CONSTRUCTOR,
    decreases ss.len(),
{
    if ss.len() > 0 {
        lemma_ranked_entries_kinds(ss.drop_last());
        let m = ranked_entries(ss.drop_last());
        let r = ranked_entries(ss);
        let x = ss.last();
        if !is_module_symbol(x) && !is_constructor_symbol(x) {
            let j = name_index(m, x.name@);
            lemma_name_index(m, x.name@);
            assert(symbol_entry(x).kind == kind_of_number(x.kind));
            assert forall|k: int| 0 <= k < r.len() implies (#[trigger] r[k]).kind != SymbolKind::MODULE
                && r[k].kind != SymbolKind::CONSTRUCTOR by {
                if j >= 0 {
                    assert(r == m.update(j, symbol_entry(x)));
                    if k != j {
                        assert(r[k] == m[k]);
                    } else {
                        assert(r[k] == symbol_entry(x));
                    }
                } else {
                    assert(r == m.push(symbol_entry(x)));
                    if k < m.len() {
                        assert(r[k] == m[k]);
                    } else {
                        assert(r[k] == symbol_entry(x));
                    }
                }
            }
        }
    }
}

proof fn lemma_children_for_prefix(ss: Seq<Symbol>, m: Seq<OutlineEntry>, p: Seq<bool>, e: OutlineEntry)
    ensures
        constructor_children(ss, e) matches Some(v) ==> (children_for(ss, m, p, e) matches Some(w)
            && v.len() <= w.len() && w.take(v.len() as int) == v),
{
    let nested = sort_by_start(nested_candidates(m, p, e, m.len() as int), |x: OutlineEntry| entry_range(x));
    if let Some(v) = constructor_children(ss, e) {
        if nested.len() > 0 {
            assert((v + nested).take(v.len() as int) =~= v);
        } else {
            assert(v.take(v.len() as int) =~= v);
        }
    }
}

proof fn lemma_first_pass_nodes(ss: Seq<Symbol>, m: Seq<OutlineEntry>, i: int)
    requires
        m == ranked_entries(ss),
        0 <= i <= m.len(),
    ensures
        forall|k: int| 0 <= k < first_pass(ss, m, i).1.len() ==> ranked_node_ok(ss, #[trigger] first_pass(ss, m, i).1[k]),
        first_pass(ss, m, i).0.len() == m.len(),
    decreases i,
{
    lemma_ranked_entries_kinds(ss);
    if i > 0 {
        lemma_first_pass_nodes(ss, m, i - 1);
        let (p, roots) = first_pass(ss, m, i - 1);
        let e = m[i - 1];
        lemma_children_for_prefix(ss, m, p, e);
        let r = first_pass(ss, m, i).1;
        assert forall|k: int| 0 <= k < r.len() implies ranked_node_ok(ss, #[trigger] r[k]) by {
            if k < roots.len() {
                assert(r[k] == roots[k]);
            }
        }
    }
}

proof fn lemma_leftover_nodes(ss: Seq<Symbol>, m: Seq<OutlineEntry>, p: Seq<bool>, n: int)
    requires
        m == ranked_entries(ss),
        0 <= n <= m.len(),
        p.len() == m.len(),
    ensures
        forall|k: int| 0 <= k < leftover_nodes(ss, m, p, n).len() ==> ranked_node_ok(ss, #[trigger] leftover_nodes(ss, m, p, n)[k]),
    decreases n,
{
    lemma_ranked_entries_kinds(ss);
    if n > 0 {
        lemma_leftover_nodes(ss, m, p, n - 1);
        let r = leftover_nodes(ss, m, p, n);
        let q = leftover_nodes(ss, m, p, n - 1);
        assert forall|k: int| 0 <= k < r.len() implies ranked_node_ok(ss, #[trigger] r[k]) by {
            if k < q.len() {
                assert(r[k] == q[k]);
            } else {
                let e = m[n - 1];
                if let Some(v) = constructor_children(ss, e) {
                    assert(v.take(v.len() as int) =~= v);
                }
            }
        }
    }
}

proof fn lemma_sort_by_start_keeps<T>(s: Seq<T>, rng: spec_fn(T) -> Range, ok: spec_fn(T) -> bool)
    requires
        forall|k: int| 0 <= k < s.len() ==> ok(#[trigger] s[k]),
    ensures
        forall|k: int| 0 <= k < sort_by_start(s, rng).len() ==> ok(#[trigger] sort_by_start(s, rng)[k]),
    decreases s.len(),
{
    if s.len() > 0 {
        let t = s.drop_last();
        assert forall|k: int| 0 <= k < t.len() implies ok(#[trigger] t[k]) by {
            assert(t[k] == s[k]);
        }
        lemma_sort_by_start_keeps(t, rng, ok);
        let u = sort_by_start(t, rng);
        lemma_insert_by_start_elements(u, s.last(), rng);
        let r = sort_by_start(s, rng);
        assert forall|k: int| 0 <= k < r.len() implies ok(#[trigger] r[k]) by {
            if r[k] != s.last() {
                let i = choose|i: int| 0 <= i < u.len() && r[k] == u[i];
            } else {
                assert(ok(s[s.len() - 1]));
            }
        }
    }
}

/// Below the heads, the outline holds no module and no constructor: those
/// are heads, or children of their type.  And under every type that has
/// constructors, its constructors (in input order) come first among its
/// children.
pub proof fn law_outline_entries_below_heads(ss: Seq<Symbol>)
    ensures
        ({
            let o = outline_of(ss);
            let h = head_entries(ss).len() as int;
            forall|k: int| h <= k < o.len() ==> ranked_node_ok(ss, #[trigger] o[k])
        }),
{
    let m = ranked_entries(ss);
    lemma_first_pass_nodes(ss, m, m.len() as int);
    let (p, roots) = first_pass(ss, m, m.len() as int);
    lemma_leftover_nodes(ss, m, p, m.len() as int);
    let all = roots + leftover_nodes(ss, m, p, m.len() as int);
    assert forall|k: int| 0 <= k < all.len() implies ranked_node_ok(ss, #[trigger] all[k]) by {
        if k < roots.len() {
            assert(all[k] == roots[k]);
        } else {
            assert(all[k] == leftover_nodes(ss, m, p, m.len() as int)[k - roots.len()]);
        }
    }
    let ok = |n: OutlineNode| ranked_node_ok(ss, n);
    assert forall|k: int| 0 <= k < all.len() implies ok(#[trigger] all[k]) by {}
    lemma_sort_by_start_keeps(all, |n: OutlineNode| node_range(n), ok);
    law_outline_order(ss);
    let o = outline_of(ss);
    let heads = head_entries(ss).map_values(|e: OutlineEntry| OutlineNode { entry: e, children: None });
    let rest = sort_by_start(all, |n: OutlineNode| node_range(n));
    assert(o == heads + rest);
    assert forall|k: int| heads.len() <= k < o.len() implies ranked_node_ok(ss, #[trigger] o[k]) by {
        assert(o[k] == rest[k - heads.len()]);
        assert(ok(rest[k - heads.len()]));
    }
}

proof fn lemma_insert_by_start_place<T>(s: Seq<T>, x: T, rng: spec_fn(T) -> Range) -> (p: int)
    ensures
        0 <= p <= s.len(),
        insert_by_start(s, x, rng) == s.take(p).push(x) + s.skip(p),
    decreases s.len(),
{
    if s.len() == 0 {
        assert(s.take(0).push(x) + s.skip(0) =~= seq![x]);
        0
    } else if starts_before(rng(x), rng(s.last())) {
        let t = s.drop_last();
        let p = lemma_insert_by_start_place(t, x, rng);
        assert(t.take(p) =~= s.take(p));
        assert(t.skip(p).push(s.last()) =~= s.skip(p));
        assert(insert_by_start(s, x, rng) =~= s.take(p).push(x) + s.skip(p));
        p
    } else {
        let p = s.len() as int;
        assert(s.take(p) =~= s);
        assert(s.skip(p) =~= Seq::<T>::empty());
        assert(insert_by_start(s, x, rng) =~= s.take(p).push(x) + s.skip(p));
        p
    }
}

/// Sorting by start loses nothing: every element of the input is in the
/// result.
proof fn lemma_sort_by_start_keeps_all<T>(s: Seq<T>, rng: spec_fn(T) -> Range)
    ensures
        sort_by_start(s, rng).len() == s.len(),
        forall|i: int| 0 <= i < s.len() ==> sort_by_start(s, rng).contains(#[trigger] s[i]),
    decreases s.len(),
{
    if s.len() > 0 {
        let t = s.drop_last();
        lemma_sort_by_start_keeps_all(t, rng);
        let u = sort_by_start(t, rng);
        let p = lemma_insert_by_start_place(u, s.last(), rng);
        let r = sort_by_start(s, rng);
        assert(r == u.take(p).push(s.last()) + u.skip(p));
        assert forall|i: int| 0 <= i < s.len() implies r.contains(#[trigger] s[i]) by {
            if i == s.len() - 1 {
                assert(r[p] == s.last());
            } else {
                assert(s[i] == t[i]);
                assert(u.contains(t[i]));
                let j = choose|j: int| 0 <= j < u.len() && u[j] == t[i];
                if j < p {
                    assert(r[j] == u[j]);
                } else {
                    assert(r[j + 1] == u[j]);
                }
            }
        }
    }
}

proof fn lemma_nested_candidates_has(m: Seq<OutlineEntry>, p: Seq<bool>, e: OutlineEntry, n: int, k: int)
    requires
        0 <= k < n <= m.len(),
        k < p.len(),
        !p[k],
        m[k].name != e.name,
        contained(m[k].range, e.range),
    ensures
        nested_candidates(m, p, e, n).contains(m[k]),
    decreases n,
{
    if k < n - 1 {
        lemma_nested_candidates_has(m, p, e, n - 1, k);
        let r = nested_candidates(m, p, e, n - 1);
        let j = choose|j: int| 0 <= j < r.len() && r[j] == m[k];
        let o = m[n - 1];
        if !p[n - 1] && o.name != e.name && contained(o.range, e.range) {
            assert(r.push(o)[j] == m[k]);
        }
    } else {
        let r = nested_candidates(m, p, e, n - 1);
        assert(r.push(m[k])[r.len() as int] == m[k]);
    }
}

proof fn lemma_contained_transitive(a: Range, b: Range, c: Range)
    requires
        contained(a, b),
        contained(b, c),
    ensures
        contained(a, c),
{
}

proof fn lemma_contained_antisymmetric(a: Range, b: Range)
    requires
        contained(a, b),
        contained(b, a),
    ensures
        a == b,
{
}

/// The entry `m[k]` holds the entry `m[i]`: another name, and a range around it.
pub open spec fn encloses(m: Seq<OutlineEntry>, i: int, k: int) -> bool {
    m[k].name != m[i].name && contained(m[i].range, m[k].range)
}

/// Entries have distinct names and distinct ranges.
pub open spec fn entries_distinct(m: Seq<OutlineEntry>) -> bool {
    &&& forall|a: int, b: int| 0 <= a < m.len() && 0 <= b < m.len() && a != b ==> (#[trigger] m[a]).name != (#[trigger] m[b]).name
    &&& forall|a: int, b: int| 0 <= a < m.len() && 0 <= b < m.len() && a != b ==> (#[trigger] m[a]).range != (#[trigger] m[b]).range
}

/// How many of the first `n` entries hold `m[i]`.
pub open spec fn enclosers(m: Seq<OutlineEntry>, i: int, n: int) -> nat
    decreases n,
{
    if n <= 0 {
        0
    } else {
        enclosers(m, i, n - 1) + if encloses(m, i, n - 1) {
            1nat
        } else {
            0nat
        }
    }
}

proof fn lemma_enclosers_fewer(m: Seq<OutlineEntry>, a: int, b: int, n: int, w: int)
    requires
        0 <= n <= m.len(),
        forall|k: int| 0 <= k < n ==> #[trigger] encloses(m, b, k) ==> encloses(m, a, k),
        0 <= w < n,
        encloses(m, a, w),
        !encloses(m, b, w),
    ensures
        enclosers(m, b, n) < enclosers(m, a, n),
    decreases n,
{
    if w < n - 1 {
        lemma_enclosers_fewer(m, a, b, n - 1, w);
    } else {
        lemma_enclosers_at_most(m, a, b, n - 1);
    }
}

proof fn lemma_enclosers_at_most(m: Seq<OutlineEntry>, a: int, b: int, n: int)
    requires
        0 <= n <= m.len(),
        forall|k: int| 0 <= k < n ==> #[trigger] encloses(m, b, k) ==> encloses(m, a, k),
    ensures
        enclosers(m, b, n) <= enclosers(m, a, n),
    decreases n,
{
    if n > 0 {
        lemma_enclosers_at_most(m, a, b, n - 1);
    }
}

/// An entry held by another is held by one that no entry holds.
proof fn lemma_top_encloser(m: Seq<OutlineEntry>, q: int, c: int) -> (e: int)
    requires
        entries_distinct(m),
        0 <= q < m.len(),
        0 <= c < m.len(),
        encloses(m, q, c),
    ensures
        0 <= e < m.len(),
        encloses(m, q, e),
        is_top(m, e),
    decreases enclosers(m, c, m.len() as int),
{
    if is_top(m, c) {
        c
    } else {
        let c1 = choose|k: int| 0 <= k < m.len() && !((#[trigger] m[k]).name == m[c].name || !contained(m[c].range, m[k].range));
        assert(encloses(m, c, c1));
        lemma_contained_transitive(m[q].range, m[c].range, m[c1].range);
        if m[c1].name == m[q].name {
            assert(c1 == q);
            lemma_contained_antisymmetric(m[q].range, m[c].range);
            assert(false);
        }
        assert forall|k: int| 0 <= k < m.len() implies #[trigger] encloses(m, c1, k) ==> encloses(m, c, k) by {
            if encloses(m, c1, k) {
                lemma_contained_transitive(m[c].range, m[c1].range, m[k].range);
                if m[k].name == m[c].name {
                    assert(k == c);
                    lemma_contained_antisymmetric(m[c].range, m[c1].range);
                    assert(c1 == c);
                }
            }
        }
        lemma_enclosers_fewer(m, c, c1, m.len() as int, c1);
        lemma_top_encloser(m, q, c1)
    }
}

/// The root `roots[r]` holds `x` among its children, and its range holds `x`'s.
pub open spec fn root_holds(roots: Seq<OutlineNode>, r: int, x: OutlineEntry) -> bool {
    &&& contained(x.range, roots[r].entry.range)
    &&& roots[r].children matches Some(c) && c.contains(x)
}

/// What the first pass keeps true after the first `i` entries.
pub open spec fn first_pass_inv(ss: Seq<Symbol>, m: Seq<OutlineEntry>, i: int) -> bool {
    let (p, roots) = first_pass(ss, m, i);
    &&& p.len() == m.len()
    &&& forall|e: int, k: int| 0 <= e < i && 0 <= k < m.len() && is_top(m, e) && #[trigger] encloses(m, k, e) ==> p[k]
    &&& forall|k: int| i <= k < m.len() && #[trigger] is_top(m, k) ==> !p[k]
    &&& forall|k: int| 0 <= k < m.len() && #[trigger] p[k] && !is_top(m, k) ==> exists|r: int| 0 <= r < roots.len() && #[trigger] root_holds(roots, r, m[k])
    &&& forall|r: int| 0 <= r < roots.len() ==> exists|e: int| 0 <= e < m.len() && #[trigger] roots[r].entry == m[e] && is_top(m, e)
}

proof fn lemma_first_pass_inv(ss: Seq<Symbol>, m: Seq<OutlineEntry>, i: int)
    requires
        0 <= i <= m.len(),
    ensures
        first_pass_inv(ss, m, i),
    decreases i,
{
    lemma_first_pass_len(ss, m, i);
    if i > 0 {
        lemma_first_pass_inv(ss, m, i - 1);
        lemma_first_pass_len(ss, m, i - 1);
        let (p, roots) = first_pass(ss, m, i - 1);
        let x = i - 1;
        let e = m[x];
        let (p2, roots2) = first_pass(ss, m, i);
        if p[x] || !is_top(m, x) {
            assert(!is_top(m, x));
            assert((p2, roots2) == (p, roots));
        } else {
            let node = OutlineNode { entry: e, children: children_for(ss, m, p, e) };
            assert(roots2 == roots.push(node));
            assert(p2 == Seq::new(
                m.len(),
                |k: int| p[k] || k == x || (m[k].name != e.name && contained(m[k].range, e.range)),
            ));
            assert forall|k: int| i <= k < m.len() && #[trigger] is_top(m, k) implies !p2[k] by {
                assert(!p[k]);
                if m[k].name != e.name && contained(m[k].range, e.range) {
                    assert(!(m[x].name == m[k].name || !contained(m[k].range, m[x].range)));
                }
            }
            assert forall|k: int| 0 <= k < m.len() && #[trigger] p2[k] && !is_top(m, k) implies exists|r: int|
                0 <= r < roots2.len() && #[trigger] root_holds(roots2, r, m[k]) by {
                if p[k] {
                    let r = choose|r: int| 0 <= r < roots.len() && #[trigger] root_holds(roots, r, m[k]);
                    assert(roots2[r] == roots[r]);
                    assert(root_holds(roots2, r, m[k]));
                } else {
                    assert(k != x);
                    lemma_nested_candidates_has(m, p, e, m.len() as int, k);
                    let nc = nested_candidates(m, p, e, m.len() as int);
                    let j = choose|j: int| 0 <= j < nc.len() && nc[j] == m[k];
                    lemma_sort_by_start_keeps_all(nc, |y: OutlineEntry| entry_range(y));
                    let nested = sort_by_start(nc, |y: OutlineEntry| entry_range(y));
                    assert(nested.contains(nc[j]));
                    let t = choose|t: int| 0 <= t < nested.len() && nested[t] == nc[j];
                    let c = match constructor_children(ss, e) {
                        Some(v) => v,
                        None => Seq::empty(),
                    };
                    assert(children_for(ss, m, p, e) == Some(c + nested));
                    assert((c + nested)[c.len() + t] == m[k]);
                    assert(roots2[roots.len() as int] == node);
                    assert(root_holds(roots2, roots.len() as int, m[k]));
                }
            }
            assert forall|r: int| 0 <= r < roots2.len() implies exists|e2: int| 0 <= e2 < m.len() && #[trigger] roots2[r].entry == m[e2] && is_top(m, e2) by {
                if r < roots.len() {
                    assert(roots2[r] == roots[r]);
                    let e2 = choose|e2: int| 0 <= e2 < m.len() && #[trigger] roots[r].entry == m[e2] && is_top(m, e2);
                } else {
                    assert(roots2[r].entry == m[x]);
                }
            }
        }
    }
}

proof fn lemma_leftover_unplaced(ss: Seq<Symbol>, m: Seq<OutlineEntry>, p: Seq<bool>, n: int)
    requires
        0 <= n <= m.len(),
        p.len() == m.len(),
    ensures
        forall|j: int| 0 <= j < leftover_nodes(ss, m, p, n).len() ==> exists|k: int| 0 <= k < n && !p[k]
            && #[trigger] leftover_nodes(ss, m, p, n)[j].entry == m[k],
    decreases n,
{
    if n > 0 {
        lemma_leftover_unplaced(ss, m, p, n - 1);
        let q = leftover_nodes(ss, m, p, n - 1);
        let r = leftover_nodes(ss, m, p, n);
        assert forall|j: int| 0 <= j < r.len() implies exists|k: int| 0 <= k < n && !p[k] && #[trigger] r[j].entry == m[k] by {
            if j < q.len() {
                assert(r[j] == q[j]);
                let k = choose|k: int| 0 <= k < n - 1 && !p[k] && #[trigger] q[j].entry == m[k];
            } else {
                assert(r[j].entry == m[n - 1]);
            }
        }
    }
}

/// Nesting in the outline: when the ranked entries have distinct ranges and
/// the entry `m[iq]` lies within another entry `m[ip]`, `m[iq]` is not a
/// top-level node of the outline, and some top-level node whose range holds
/// it has it among its children.
pub proof fn law_outline_nesting(ss: Seq<Symbol>, iq: int, ip: int)
    requires
        forall|a: int, b: int|
            0 <= a < ranked_entries(ss).len() && 0 <= b < ranked_entries(ss).len() && a != b
                ==> (#[trigger] ranked_entries(ss)[a]).range != (#[trigger] ranked_entries(ss)[b]).range,
        0 <= iq < ranked_entries(ss).len(),
        0 <= ip < ranked_entries(ss).len(),
        iq != ip,
        contained(ranked_entries(ss)[iq].range, ranked_entries(ss)[ip].range),
    ensures
        ({
            let o = outline_of(ss);
            let q = ranked_entries(ss)[iq];
            &&& forall|k: int| 0 <= k < o.len() ==> (#[trigger] o[k]).entry != q
            &&& exists|k: int| 0 <= k < o.len() && #[trigger] root_holds(o, k, q)
        }),
{
    let m = ranked_entries(ss);
    let q = m[iq];
    lemma_ranked_names_unique(ss);
    assert(entries_distinct(m));
    assert(encloses(m, iq, ip));
    let e = lemma_top_encloser(m, iq, ip);
    lemma_first_pass_inv(ss, m, m.len() as int);
    let (p, roots) = first_pass(ss, m, m.len() as int);
    assert(p[iq]);
    assert(!is_top(m, iq)) by {
        assert(!(m[ip].name == m[iq].name || !contained(m[iq].range, m[ip].range)));
    }
    let r = choose|r: int| 0 <= r < roots.len() && #[trigger] root_holds(roots, r, m[iq]);
    lemma_leftover_unplaced(ss, m, p, m.len() as int);
    let left = leftover_nodes(ss, m, p, m.len() as int);
    let all = roots + left;
    let rng = |n: OutlineNode| node_range(n);
    let not_q = |n: OutlineNode| n.entry != q;
    assert forall|k: int| 0 <= k < all.len() implies not_q(#[trigger] all[k]) by {
        if k < roots.len() {
            assert(all[k] == roots[k]);
            let e2 = choose|e2: int| 0 <= e2 < m.len() && #[trigger] roots[k].entry == m[e2] && is_top(m, e2);
            if roots[k].entry == q {
                assert(m[e2].name == m[iq].name);
                assert(e2 == iq);
            }
        } else {
            assert(all[k] == left[k - roots.len()]);
            let k2 = choose|k2: int| 0 <= k2 < m.len() && !p[k2] && #[trigger] left[k - roots.len()].entry == m[k2];
            if left[k - roots.len()].entry == q {
                assert(m[k2].name == m[iq].name);
                assert(k2 == iq);
            }
        }
    }
    lemma_sort_by_start_keeps(all, rng, not_q);
    lemma_sort_by_start_keeps_all(all, rng);
    let rest = sort_by_start(all, rng);
    let heads = head_entries(ss).map_values(|x: OutlineEntry| OutlineNode { entry: x, children: None });
    let o = outline_of(ss);
    assert(o == heads + rest);
    lemma_ranked_entries_kinds(ss);
    lemma_head_kinds(ss);
    assert forall|k: int| 0 <= k < o.len() implies (#[trigger] o[k]).entry != q by {
        if k < heads.len() {
            assert(o[k] == heads[k]);
            assert(heads[k].entry == head_entries(ss)[k]);
        } else {
            assert(o[k] == rest[k - heads.len()]);
            assert(not_q(rest[k - heads.len()]));
        }
    }
    assert(all[r] == roots[r]);
    assert(rest.contains(all[r]));
    let t = choose|t: int| 0 <= t < rest.len() && rest[t] == all[r];
    assert(o[heads.len() + t] == roots[r]);
    assert(root_holds(o, heads.len() + t, q));
}

proof fn lemma_first_pass_roots_grow(ss: Seq<Symbol>, m: Seq<OutlineEntry>, i: int, j: int)
    requires
        0 <= i <= j,
    ensures
        first_pass(ss, m, i).1.len() <= first_pass(ss, m, j).1.len(),
        forall|r: int| 0 <= r < first_pass(ss, m, i).1.len() ==> #[trigger] first_pass(ss, m, j).1[r] == first_pass(ss, m, i).1[r],
    decreases j - i,
{
    if i < j {
        lemma_first_pass_roots_grow(ss, m, i, j - 1);
        let a = first_pass(ss, m, j - 1).1;
        let b = first_pass(ss, m, j).1;
        assert forall|r: int| 0 <= r < first_pass(ss, m, i).1.len() implies #[trigger] b[r] == first_pass(ss, m, i).1[r] by {
            assert(b[r] == a[r]);
        }
    }
}

/// Every entry that no other entry holds is a top-level node of the outline,
/// made by the first pass with its children; in particular a type that no
/// other entry holds is a top-level node whose children begin with its
/// constructors, in input order.
pub proof fn law_type_root_holds_its_constructors(ss: Seq<Symbol>, e: int)
    requires
        0 <= e < ranked_entries(ss).len(),
        is_top(ranked_entries(ss), e),
    ensures
        ({
            let m = ranked_entries(ss);
            let o = outline_of(ss);
            exists|k: int| 0 <= k < o.len() && (#[trigger] o[k]).entry == m[e] && (constructor_children(ss, m[e]) matches Some(v)
                ==> (o[k].children matches Some(w) && v.len() <= w.len() && w.take(v.len() as int) == v))
        }),
{
    let m = ranked_entries(ss);
    lemma_first_pass_inv(ss, m, e);
    let (p, roots) = first_pass(ss, m, e);
    assert(!p[e]);
    let node = OutlineNode { entry: m[e], children: children_for(ss, m, p, m[e]) };
    assert(first_pass(ss, m, e + 1).1 == roots.push(node));
    lemma_children_for_prefix(ss, m, p, m[e]);
    lemma_first_pass_roots_grow(ss, m, e + 1, m.len() as int);
    let (pf, rf) = first_pass(ss, m, m.len() as int);
    let ri = roots.len() as int;
    assert(first_pass(ss, m, e + 1).1[ri] == node);
    assert(rf[ri] == node);
    let all = rf + leftover_nodes(ss, m, pf, m.len() as int);
    assert(all[ri] == node);
    lemma_sort_by_start_keeps_all(all, |n: OutlineNode| node_range(n));
    let rest = sort_by_start(all, |n: OutlineNode| node_range(n));
    assert(rest.contains(all[ri]));
    let t = choose|t: int| 0 <= t < rest.len() && rest[t] == all[ri];
    let heads = head_entries(ss).map_values(|x: OutlineEntry| OutlineNode { entry: x, children: None });
    let o = outline_of(ss);
    assert(o == heads + rest);
    assert(o[heads.len() + t] == node);
}

/// The entries that head the outline are modules or constructors.
proof fn lemma_head_kinds(ss: Seq<Symbol>)
    ensures
        forall|k: int| 0 <= k < head_entries(ss).len() ==> (#[trigger] head_entries(ss)[k]).kind == SymbolKind::MODULE
            || head_entries(ss)[k].kind == SymbolKind::CONSTRUCTOR,
    decreases ss.len(),
{
    if ss.len() > 0 {
        lemma_head_kinds(ss.drop_last());
        let r = head_entries(ss.drop_last());
        let h = head_entries(ss);
        assert forall|k: int| 0 <= k < h.len() implies (#[trigger] h[k]).kind == SymbolKind::MODULE
            || h[k].kind == SymbolKind::CONSTRUCTOR by {
            if k < r.len() {
                assert(h[k] == r[k]);
            }
        }
    }
}

fn copy_text(o: &Option<String>) -> (r: Option<String>)
    ensures
        opt_text(r) == opt_text(*o),
{
    match o {
        Some(t) => Some(t.clone()),
        None => None,
    }
}

/// A copy of an entry, without anything below it.
fn copy_leaf(d: &DocumentSymbol) -> (r: DocumentSymbol)
    ensures
        entry_of(r) == entry_of(*d),
        is_leaf(r),
{
    DocumentSymbol {
        name: d.name.clone(),
        detail: copy_text(&d.detail),
        kind: d.kind,
        range: d.range,
        selection_range: d.selection_range,
        children: None,
    }
}

fn contained_in(inner: Range, outer: Range) -> (r: bool)
    ensures
        r == contained(inner, outer),
{
    (outer.start.line < inner.start.line || (outer.start.line == inner.start.line
        && outer.start.character <= inner.start.character)) && (outer.end.line > inner.end.line
        || (outer.end.line == inner.end.line && outer.end.character >= inner.end.character))
}

fn entry_from_symbol(s: &Symbol) -> (r: Result<DocumentSymbol, SymbolError>)
    ensures
        r matches Ok(d) && entry_of(d) == symbol_entry(*s) && is_leaf(d),
{
    s.to_document_symbol()
}

/// The entries that head the outline.
fn head_symbols(symbols: &Vec<Symbol>) -> (r: Result<Vec<DocumentSymbol>, SymbolError>)
    ensures
        r matches Ok(v) && entries_of(v@) == head_entries(symbols@) && forall|i: int|
            0 <= i < v@.len() ==> is_leaf(#[trigger] v@[i]),
{
    let mut r: Vec<DocumentSymbol> = Vec::new();
    let mut i: usize = 0;
    assert(symbols@.take(0) =~= Seq::<Symbol>::empty());
    while i < symbols.len()
        invariant
            0 <= i <= symbols@.len(),
            entries_of(r@) == head_entries(symbols@.take(i as int)),
            forall|j: int| 0 <= j < r@.len() ==> is_leaf(#[trigger] r@[j]),
        decreases symbols.len() - i,
    {
        let s = &symbols[i];
        assert(symbols@.take(i + 1).drop_last() =~= symbols@.take(i as int));
        let kind = crate::symbols::i32_to_symbol_kind(s.kind);
        let heads = kind == SymbolKind::MODULE || (kind == SymbolKind::CONSTRUCTOR
            && s.container.is_none());
        if heads {
            let d = match entry_from_symbol(s) {
                Ok(d) => d,
                Err(e) => return Err(e),
            };
            let ghost before = r@;
            r.push(d);
            assert(entries_of(r@) =~= entries_of(before).push(entry_of(d)));
        }
        i = i + 1;
    }
    assert(symbols@.take(symbols@.len() as int) =~= symbols@);
    Ok(r)
}

/// The constructors of the type named `t`.
fn constructors_for(symbols: &Vec<Symbol>, t: &str) -> (r: Result<Vec<DocumentSymbol>, SymbolError>)
    ensures
        r matches Ok(v) && entries_of(v@) == constructors_of(symbols@, t@) && forall|i: int|
            0 <= i < v@.len() ==> is_leaf(#[trigger] v@[i]),
{
    let mut r: Vec<DocumentSymbol> = Vec::new();
    let mut i: usize = 0;
    assert(symbols@.take(0) =~= Seq::<Symbol>::empty());
    while i < symbols.len()
        invariant
            0 <= i <= symbols@.len(),
            entries_of(r@) == constructors_of(symbols@.take(i as int), t@),
            forall|j: int| 0 <= j < r@.len() ==> is_leaf(#[trigger] r@[j]),
        decreases symbols.len() - i,
    {
        let s = &symbols[i];
        assert(symbols@.take(i + 1).drop_last() =~= symbols@.take(i as int));
        let kind = crate::symbols::i32_to_symbol_kind(s.kind);
        let belongs = kind == SymbolKind::CONSTRUCTOR && match &s.container {
            Some(c) => str_equal(c.as_str(), t),
            None => false,
        };
        if belongs {
            let d = match entry_from_symbol(s) {
                Ok(d) => d,
                Err(e) => return Err(e),
            };
            let ghost before = r@;
            r.push(d);
            assert(entries_of(r@) =~= entries_of(before).push(entry_of(d)));
        }
        i = i + 1;
    }
    assert(symbols@.take(symbols@.len() as int) =~= symbols@);
    Ok(r)
}

pub proof fn lemma_name_index(m: Seq<OutlineEntry>, n: Seq<char>)
    ensures
        -1 <= name_index(m, n) < m.len(),
        name_index(m, n) >= 0 ==> m[name_index(m, n)].name == n,
        name_index(m, n) == -1 ==> forall|k: int| 0 <= k < m.len() ==> (#[trigger] m[k]).name != n,
    decreases m.len(),
{
    if m.len() > 0 {
        lemma_name_index(m.drop_last(), n);
        if m.last().name != n {
            assert forall|k: int| 0 <= k < m.len() - 1 implies m[k] == m.drop_last()[k] by {}
        }
    }
}

/// The ranked entries have distinct names.
pub proof fn lemma_ranked_names_unique(ss: Seq<Symbol>)
    ensures
        forall|a: int, b: int|
            0 <= a < ranked_entries(ss).len() && 0 <= b < ranked_entries(ss).len() && a != b
                ==> (#[trigger] ranked_entries(ss)[a]).name != (#[trigger] ranked_entries(ss)[b]).name,
    decreases ss.len(),
{
    if ss.len() > 0 {
        lemma_ranked_names_unique(ss.drop_last());
        let m = ranked_entries(ss.drop_last());
        lemma_name_index(m, ss.last().name@);
    }
}

/// Where the entry named like `name` is in `m`.
fn find_name(m: &Vec<DocumentSymbol>, name: &str) -> (r: Option<usize>)
    ensures
        r matches Some(j) ==> j == name_index(entries_of(m@), name@),
        r is None ==> name_index(entries_of(m@), name@) == -1,
{
    let ghost em = entries_of(m@);
    let mut k: usize = m.len();
    assert(em.take(m@.len() as int) =~= em);
    while k > 0
        invariant
            0 <= k <= m@.len(),
            em == entries_of(m@),
            name_index(em, name@) == name_index(em.take(k as int), name@),
        decreases k,
    {
        assert(em.take(k as int).drop_last() =~= em.take(k - 1));
        if str_equal(m[k - 1].name.as_str(), name) {
            return Some(k - 1);
        }
        k = k - 1;
    }
    None
}

/// The symbols to arrange by range, one per name.
fn ranked_symbols(symbols: &Vec<Symbol>) -> (r: Result<Vec<DocumentSymbol>, SymbolError>)
    ensures
        r matches Ok(v) && entries_of(v@) == ranked_entries(symbols@) && forall|i: int|
            0 <= i < v@.len() ==> is_leaf(#[trigger] v@[i]),
{
    let mut r: Vec<DocumentSymbol> = Vec::new();
    let mut i: usize = 0;
    assert(symbols@.take(0) =~= Seq::<Symbol>::empty());
    while i < symbols.len()
        invariant
            0 <= i <= symbols@.len(),
            entries_of(r@) == ranked_entries(symbols@.take(i as int)),
            forall|j: int| 0 <= j < r@.len() ==> is_leaf(#[trigger] r@[j]),
        decreases symbols.len() - i,
    {
        let s = &symbols[i];
        assert(symbols@.take(i + 1).drop_last() =~= symbols@.take(i as int));
        let kind = crate::symbols::i32_to_symbol_kind(s.kind);
        if kind != SymbolKind::MODULE && kind != SymbolKind::CONSTRUCTOR {
            let d = match entry_from_symbol(s) {
                Ok(d) => d,
                Err(e) => return Err(e),
            };
            let ghost before = r@;
            proof {
                lemma_name_index(entries_of(before), s.name@);
            }
            match find_name(&r, s.name.as_str()) {
                Some(j) => {
                    r.set(j, d);
                    assert(entries_of(r@) =~= entries_of(before).update(j as int, entry_of(d)));
                },
                None => {
                    r.push(d);
                    assert(entries_of(r@) =~= entries_of(before).push(entry_of(d)));
                },
            }
        }
        i = i + 1;
    }
    assert(symbols@.take(symbols@.len() as int) =~= symbols@);
    Ok(r)
}

/// No other ranked entry's range holds that of `m[i]`.
fn is_top_level(m: &Vec<DocumentSymbol>, i: usize) -> (r: bool)
    requires
        i < m@.len(),
    ensures
        r == is_top(entries_of(m@), i as int),
{
    let ghost em = entries_of(m@);
    let mut k: usize = 0;
    while k < m.len()
        invariant
            i < m@.len(),
            em == entries_of(m@),
            0 <= k <= m@.len(),
            forall|j: int|
                0 <= j < k ==> (#[trigger] em[j]).name == em[i as int].name || !contained(
                    em[i as int].range,
                    em[j].range,
                ),
        decreases m.len() - k,
    {
        let same = str_equal(m[k].name.as_str(), m[i].name.as_str());
        if !same && contained_in(m[i].range, m[k].range) {
            assert(!(em[k as int].name == em[i as int].name || !contained(
                em[i as int].range,
                em[k as int].range,
            )));
            return false;
        }
        k = k + 1;
    }
    true
}

/// The entries not yet placed that lie within `m[i]`, in ranked order.
fn nested_for(m: &Vec<DocumentSymbol>, placed: &Vec<bool>, i: usize) -> (r: Vec<DocumentSymbol>)
    requires
        i < m@.len(),
        placed@.len() == m@.len(),
    ensures
        entries_of(r@) == nested_candidates(
            entries_of(m@),
            placed@,
            entries_of(m@)[i as int],
            m@.len() as int,
        ),
        forall|j: int| 0 <= j < r@.len() ==> is_leaf(#[trigger] r@[j]),
{
    let ghost em = entries_of(m@);
    let ghost e = em[i as int];
    let mut r: Vec<DocumentSymbol> = Vec::new();
    let mut k: usize = 0;
    while k < m.len()
        invariant
            i < m@.len(),
            placed@.len() == m@.len(),
            em == entries_of(m@),
            e == em[i as int],
            0 <= k <= m@.len(),
            entries_of(r@) == nested_candidates(em, placed@, e, k as int),
            forall|j: int| 0 <= j < r@.len() ==> is_leaf(#[trigger] r@[j]),
        decreases m.len() - k,
    {
        let same = str_equal(m[k].name.as_str(), m[i].name.as_str());
        if !placed[k] && !same && contained_in(m[k].range, m[i].range) {
            let d = copy_leaf(&m[k]);
            let ghost before = r@;
            r.push(d);
            assert(entries_of(r@) =~= entries_of(before).push(entry_of(d)));
        }
        k = k + 1;
    }
    r
}

proof fn lemma_insert_keeps(s: Seq<DocumentSymbol>, x: DocumentSymbol, pred: spec_fn(DocumentSymbol) -> bool)
    requires
        pred(x),
        forall|j: int| 0 <= j < s.len() ==> pred(#[trigger] s[j]),
    ensures
        forall|j: int| 0 <= j < insert_ranked(s, x).len() ==> pred(#[trigger] insert_ranked(s, x)[j]),
    decreases s.len(),
{
    if s.len() > 0 && x.precedes(&s.last()) {
        lemma_insert_keeps(s.drop_last(), x, pred);
        let t = insert_ranked(s.drop_last(), x);
        assert forall|j: int| 0 <= j < t.push(s.last()).len() implies pred(#[trigger] t.push(s.last())[j]) by {
            if j < t.len() {
                assert(t.push(s.last())[j] == t[j]);
            }
        }
    } else if s.len() > 0 {
        assert forall|j: int| 0 <= j < s.push(x).len() implies pred(#[trigger] s.push(x)[j]) by {
            if j < s.len() {
                assert(s.push(x)[j] == s[j]);
            }
        }
    }
}

/// Sorting keeps what holds of every element.
proof fn lemma_sorted_keeps(v: Seq<DocumentSymbol>, pred: spec_fn(DocumentSymbol) -> bool)
    requires
        forall|j: int| 0 <= j < v.len() ==> pred(#[trigger] v[j]),
    ensures
        forall|j: int| 0 <= j < stable_sorted(v).len() ==> pred(#[trigger] stable_sorted(v)[j]),
    decreases v.len(),
{
    if v.len() > 0 {
        assert forall|j: int| 0 <= j < v.drop_last().len() implies pred(#[trigger] v.drop_last()[j]) by {
            assert(v.drop_last()[j] == v[j]);
        }
        lemma_sorted_keeps(v.drop_last(), pred);
        lemma_insert_keeps(stable_sorted(v.drop_last()), v.last(), pred);
    }
}

/// The node of a top-level entry: a copy of `m[i]` with its children.
fn node_with_children(
    symbols: &Vec<Symbol>,
    m: &Vec<DocumentSymbol>,
    placed: &Vec<bool>,
    i: usize,
) -> (r: Result<DocumentSymbol, SymbolError>)
    requires
        i < m@.len(),
        placed@.len() == m@.len(),
    ensures
        r matches Ok(d) && node_of(d) == (OutlineNode {
            entry: entries_of(m@)[i as int],
            children: children_for(symbols@, entries_of(m@), placed@, entries_of(m@)[i as int]),
        }) && is_two_level(d),
{
    let ghost em = entries_of(m@);
    let ghost e = em[i as int];
    let kind = m[i].kind;
    let is_type = kind == SymbolKind::CLASS || kind == SymbolKind::ENUM || kind == SymbolKind::STRUCT;
    let mut ctors: Vec<DocumentSymbol> = if is_type {
        match constructors_for(symbols, m[i].name.as_str()) {
            Ok(v) => v,
            Err(e) => return Err(e),
        }
    } else {
        Vec::new()
    };
    let has_ctors = ctors.len() > 0;
    let nested = nested_for(m, placed, i);
    let ghost nested_v = nested@;
    let sorted = stable_sort(nested);
    proof {
        lemma_sorted_entries(nested_v);
        lemma_sorted_keeps(nested_v, |d: DocumentSymbol| is_leaf(d));
        assert forall|j: int| 0 <= j < sorted@.len() implies is_leaf(#[trigger] sorted@[j]) by {
            let pred = |d: DocumentSymbol| is_leaf(d);
            assert(pred(stable_sorted(nested_v)[j]));
        }
        assert(em[i as int] == entry_of(m@[i as int]));
    }
    let ghost c = constructor_children(symbols@, e);
    let mut leaf = copy_leaf(&m[i]);
    let ghost ctor_part: Seq<OutlineEntry> = match c {
        Some(v) => v,
        None => Seq::empty(),
    };
    assert(entries_of(ctors@) == ctor_part);
    assert(entries_of(sorted@) == sort_by_start(
        nested_candidates(em, placed@, e, m@.len() as int),
        |x: OutlineEntry| entry_range(x),
    ));
    if sorted.len() == 0 {
        if has_ctors {
            leaf.children = Some(ctors);
        } else {
            assert(c is None);
        }
    } else {
        let ghost before = ctors@;
        let mut rest = sorted;
        let ghost rs = rest@;
        ctors.append(&mut rest);
        assert(ctors@ == before + rs);
        assert(entries_of(ctors@) =~= entries_of(before) + entries_of(rs));
        leaf.children = Some(ctors);
    }
    Ok(leaf)
}

proof fn lemma_first_pass_len(ss: Seq<Symbol>, m: Seq<OutlineEntry>, i: int)
    ensures
        first_pass(ss, m, i).0.len() == m.len(),
    decreases i,
{
    if i > 0 {
        lemma_first_pass_len(ss, m, i - 1);
    }
}

/// The node of an entry left over by the first pass: a copy of `m[k]` with
/// the constructors of its type.
fn leftover_node(symbols: &Vec<Symbol>, m: &Vec<DocumentSymbol>, k: usize) -> (r: Result<
    DocumentSymbol,
    SymbolError,
>)
    requires
        k < m@.len(),
    ensures
        r matches Ok(d) && node_of(d) == (OutlineNode {
            entry: entries_of(m@)[k as int],
            children: constructor_children(symbols@, entries_of(m@)[k as int]),
        }) && is_two_level(d),
{
    let kind = m[k].kind;
    let is_type = kind == SymbolKind::CLASS || kind == SymbolKind::ENUM || kind == SymbolKind::STRUCT;
    let mut leaf = copy_leaf(&m[k]);
    assert(entries_of(m@)[k as int] == entry_of(m@[k as int]));
    if is_type {
        let ctors = match constructors_for(symbols, m[k].name.as_str()) {
            Ok(v) => v,
            Err(e) => return Err(e),
        };
        if ctors.len() > 0 {
            leaf.children = Some(ctors);
        }
    }
    Ok(leaf)
}

/// Arranges the symbols of a document as its outline (see `outline_of`).
/// The ranked symbols are taken in the order of their first appearance.
pub fn build_document_symbol_hierarchy(symbols: Vec<Symbol>) -> (r: Result<
    Vec<DocumentSymbol>,
    SymbolError,
>)
    ensures
        r matches Ok(v) && nodes_of(v@) == outline_of(symbols@) && forall|i: int|
            0 <= i < v@.len() ==> is_two_level(#[trigger] v@[i]),
{
    let ghost ss = symbols@;
    let m = match ranked_symbols(&symbols) {
        Ok(m) => m,
        Err(e) => return Err(e),
    };
    let ghost em = entries_of(m@);
    proof {
        lemma_ranked_names_unique(ss);
    }
    let n = m.len();
    let mut placed: Vec<bool> = Vec::new();
    while placed.len() < n
        invariant
            placed@.len() <= n,
            forall|j: int| 0 <= j < placed@.len() ==> !(#[trigger] placed@[j]),
        decreases n - placed.len(),
    {
        placed.push(false);
    }
    assert(placed@ =~= first_pass(ss, em, 0).0);
    proof {
        lemma_first_pass_len(ss, em, 0);
    }
    let mut roots: Vec<DocumentSymbol> = Vec::new();
    let mut i: usize = 0;
    while i < n
        invariant
            n == m@.len(),
            em == entries_of(m@),
            ss == symbols@,
            em == ranked_entries(ss),
            0 <= i <= n,
            placed@ == first_pass(ss, em, i as int).0,
            placed@.len() == n,
            nodes_of(roots@) == first_pass(ss, em, i as int).1,
            forall|j: int| 0 <= j < roots@.len() ==> is_two_level(#[trigger] roots@[j]),
        decreases n - i,
    {
        let ghost p = placed@;
        if !placed[i] && is_top_level(&m, i) {
            let node = match node_with_children(&symbols, &m, &placed, i) {
                Ok(d) => d,
                Err(e) => return Err(e),
            };
            let ghost before = roots@;
            roots.push(node);
            assert(nodes_of(roots@) =~= nodes_of(before).push(node_of(node)));
            let ghost e = em[i as int];
            let mut k: usize = 0;
            while k < n
                invariant
                    n == m@.len(),
                    em == entries_of(m@),
                    i < n,
                    e == em[i as int],
                    p.len() == n,
                    0 <= k <= n,
                    placed@.len() == n,
                    forall|j: int|
                        0 <= j < n ==> (#[trigger] placed@[j]) == (if j < k {
                            p[j] || j == i || (em[j].name != e.name && contained(em[j].range, e.range))
                        } else {
                            p[j]
                        }),
                decreases n - k,
            {
                let same = str_equal(m[k].name.as_str(), m[i].name.as_str());
                assert(em[k as int] == entry_of(m@[k as int]));
                if k == i || (!same && contained_in(m[k].range, m[i].range)) {
                    placed.set(k, true);
                }
                k = k + 1;
            }
            assert(placed@ =~= first_pass(ss, em, i + 1).0);
        } else {
            proof {
                lemma_first_pass_len(ss, em, i as int);
            }
        }
        i = i + 1;
    }
    let ghost fp = first_pass(ss, em, n as int);
    proof {
        lemma_first_pass_len(ss, em, n as int);
    }
    let mut leftovers: Vec<DocumentSymbol> = Vec::new();
    let mut k: usize = 0;
    while k < n
        invariant
            n == m@.len(),
            em == entries_of(m@),
            ss == symbols@,
            placed@ == fp.0,
            fp.0.len() == n,
            0 <= k <= n,
            nodes_of(leftovers@) == leftover_nodes(ss, em, fp.0, k as int),
            forall|j: int| 0 <= j < leftovers@.len() ==> is_two_level(#[trigger] leftovers@[j]),
        decreases n - k,
    {
        if !placed[k] {
            let node = match leftover_node(&symbols, &m, k) {
                Ok(d) => d,
                Err(e) => return Err(e),
            };
            let ghost before = leftovers@;
            leftovers.push(node);
            assert(nodes_of(leftovers@) =~= nodes_of(before).push(node_of(node)));
        }
        k = k + 1;
    }
    let ghost r0 = roots@;
    let ghost l0 = leftovers@;
    roots.append(&mut leftovers);
    assert(nodes_of(roots@) =~= nodes_of(r0) + nodes_of(l0));
    let ghost all = roots@;
    let sorted = stable_sort(roots);
    proof {
        lemma_sorted_nodes(all);
        lemma_sorted_keeps(all, |d: DocumentSymbol| is_two_level(d));
    }
    let mut out = match head_symbols(&symbols) {
        Ok(v) => v,
        Err(e) => return Err(e),
    };
    let ghost h = out@;
    let mut tail = sorted;
    let ghost t = tail@;
    out.append(&mut tail);
    proof {
        assert(nodes_of(h) =~= head_entries(ss).map_values(
            |e: OutlineEntry| OutlineNode { entry: e, children: None },
        ));
        assert(nodes_of(out@) =~= nodes_of(h) + nodes_of(t));
        assert forall|j: int| 0 <= j < out@.len() implies is_two_level(#[trigger] out@[j]) by {
            if j < h.len() {
                assert(out@[j] == h[j]);
                assert(is_leaf(h[j]));
            } else {
                let pred = |d: DocumentSymbol| is_two_level(d);
                assert(out@[j] == t[j - h.len()]);
                assert(pred(stable_sorted(all)[j - h.len()]));
            }
        }
    }
    Ok(out)
}

/// Answers an outline request from the symbols indexed for the document
/// (`None` when no index is at hand): no outline without symbols, else the
/// outline of `build_document_symbol_hierarchy`, none when it is empty.
pub fn handle_document_symbol(symbols: Option<Vec<Symbol>>) -> (r: Result<Option<Vec<DocumentSymbol>>, SymbolError>)
    ensures
        match symbols {
            None => r matches Ok(None),
            Some(ss) => if ss@.len() == 0 {
                r matches Ok(None)
            } else {
                (outline_of(ss@).len() == 0 ==> r matches Ok(None)) && (outline_of(ss@).len() > 0
                    ==> (r matches Ok(Some(v)) && nodes_of(v@) == outline_of(ss@)))
            },
        },
{
    let ss = match symbols {
        Some(ss) => ss,
        None => return Ok(None),
    };
    if ss.len() == 0 {
        return Ok(None);
    }
    let ghost sv = ss@;
    let v = build_document_symbol_hierarchy(ss)?;
    if v.len() == 0 {
        assert(nodes_of(v@).len() == 0);
        Ok(None)
    } else {
        Ok(Some(v))
    }
}

} // verus!

//! Completion items made from indexed symbols and local variables, and the
//! lists of items offered for module members, local scope and types.
use vstd::prelude::*;
use vstd::string::*;
use crate::completion::{
    builtin_types, complete_builtin_types, is_builtin_type_item, words_with_prefix, CompletionItem,
    CompletionItemKind, Documentation,
};
use crate::line_scan::{has_prefix, matches_at, occurs_at, starts_with};
use crate::ordering::{
    key_agrees, lemma_stable_sorted_elements, lemma_stable_sorted_in_order, lemma_stable_sorted_keys, lex_lt, stable_sort, stable_sorted, str_less,
    Ranked,
};
use crate::scope::LocalVariable;
use crate::search::{law_prefixed_keeps_matching_names, lemma_symbol_weak_order, prefixed, symbols_with_prefix};
use crate::symbols::{i32_to_symbol_kind, kind_of_number, Symbol, SymbolKind};
use crate::text::{chars_of, string_from_chars};

verus! {

/// Where `p` first occurs in `s` at or after `i`, or -1.
pub open spec fn first_occurrence_from(s: Seq<char>, p: Seq<char>, i: int) -> int
    decreases s.len() + 1 - i,
{
    if i < 0 || i > s.len() {
        -1
    } else if occurs_at(s, p, i) {
        i
    } else {
        first_occurrence_from(s, p, i + 1)
    }
}

/// Where `p` first occurs in `s`, or -1 (std's `str::find`, counted in characters).
pub open spec fn first_occurrence(s: Seq<char>, p: Seq<char>) -> int {
    first_occurrence_from(s, p, 0)
}

proof fn lemma_first_occurrence_from(s: Seq<char>, p: Seq<char>, i: int)
    ensures
        first_occurrence_from(s, p, i) == -1 || (i <= first_occurrence_from(s, p, i) && occurs_at(
            s,
            p,
            first_occurrence_from(s, p, i),
        )),
    decreases s.len() + 1 - i,
{
    if 0 <= i <= s.len() && !occurs_at(s, p, i) {
        lemma_first_occurrence_from(s, p, i + 1);
    }
}

/// The item kind of a symbol kind.
pub open spec fn item_kind(k: SymbolKind) -> CompletionItemKind {
    match k {
        SymbolKind::FUNCTION => CompletionItemKind::Function,
        SymbolKind::ENUM => CompletionItemKind::Enum,
        SymbolKind::STRUCT => CompletionItemKind::Struct,
        SymbolKind::CONSTANT => CompletionItemKind::Constant,
        SymbolKind::MODULE => CompletionItemKind::Module,
        _ => CompletionItemKind::Text,
    }
}

/// The detail of a symbol's item: the type part of its signature (after the
/// first `" : "`), the whole signature, `from` its container, or `local`.
pub open spec fn symbol_detail(s: Symbol) -> Seq<char> {
    match s.signature {
        Some(sig) => {
            let i = first_occurrence(sig@, " : "@);
            if i >= 0 {
                sig@.skip(i + 3)
            } else {
                sig@
            }
        },
        None => match s.container {
            Some(c) => "from "@ + c@,
            None => "local"@,
        },
    }
}

proof fn lemma_first_occurrence_at(s: Seq<char>, p: Seq<char>, i: int, k: int)
    requires
        0 <= k <= i,
        occurs_at(s, p, i),
        forall|j: int| k <= j < i ==> !occurs_at(s, p, j),
    ensures
        first_occurrence_from(s, p, k) == i,
    decreases i - k,
{
    if k < i {
        lemma_first_occurrence_at(s, p, i, k + 1);
    }
}

/// A completion item's detail is the type of an annotated symbol: for a
/// signature `name : T` whose name holds no `:`, it is `T`.
pub proof fn law_detail_is_annotated_type(s: Symbol, name: Seq<char>, t: Seq<char>)
    requires
        s.signature matches Some(sig) && sig@ == name + " : "@ + t,
        forall|i: int| 0 <= i < name.len() ==> name[i] != ':',
    ensures
        symbol_detail(s) == t,
{
    reveal_strlit(" : ");
    let sig = s.signature->0@;
    let p = " : "@;
    assert(p =~= seq![' ', ':', ' ']);
    assert(sig.subrange(name.len() as int, name.len() + 3int) =~= p);
    assert forall|j: int| 0 <= j < name.len() implies !occurs_at(sig, p, j) by {
        if occurs_at(sig, p, j) {
            assert(sig.subrange(j, j + 3)[1] == sig[j + 1]);
            if j + 1 < name.len() {
                assert(sig[j + 1] == name[j + 1]);
            } else {
                assert(sig[j + 1] == ' ');
            }
        }
    }
    lemma_first_occurrence_at(sig, p, name.len() as int, 0);
    assert(sig.skip(name.len() + 3int) =~= t);
}

/// The item offered for a symbol.
pub open spec fn is_symbol_item(item: CompletionItem, s: Symbol) -> bool {
    &&& item.label@ == s.name@
    &&& item.kind == Some(item_kind(kind_of_number(s.kind)))
    &&& item.detail matches Some(d) && d@ == symbol_detail(s)
    &&& match s.signature {
        Some(sig) => item.documentation matches Some(Documentation::Markdown(m)) && m@ == "```gren\n"@
            + sig@ + "\n```"@,
        None => item.documentation is None,
    }
    &&& item.insert_text matches Some(t) && t@ == s.name@
}

/// The item offered for a local variable.
pub open spec fn is_variable_item(item: CompletionItem, v: LocalVariable) -> bool {
    &&& item.label@ == v.name@
    &&& item.kind == Some(CompletionItemKind::Variable)
    &&& item.detail matches Some(d) && d@ == "local variable"@
    &&& match v.type_hint {
        Some(t) => item.documentation matches Some(Documentation::String(x)) && x@ == "Type: "@ + t@,
        None => item.documentation is None,
    }
    &&& item.insert_text matches Some(t) && t@ == v.name@
}

pub(crate) fn find_text(s: &[char], p: &[char]) -> (r: Option<usize>)
    ensures
        r matches Some(i) ==> i == first_occurrence(s@, p@) && occurs_at(s@, p@, i as int),
        r is None ==> first_occurrence(s@, p@) == -1,
{
    let mut i: usize = 0;
    while i <= s.len()
        invariant
            0 <= i <= s@.len() + 1,
            first_occurrence(s@, p@) == first_occurrence_from(s@, p@, i as int),
        decreases s@.len() + 1 - i,
    {
        if matches_at(s, p, i) {
            proof {
                lemma_first_occurrence_from(s@, p@, 0);
            }
            return Some(i);
        }
        if i == s.len() {
            assert(first_occurrence_from(s@, p@, i + 1) == -1);
            return None;
        }
        i = i + 1;
    }
    None
}

/// The item offered for an indexed symbol.
pub fn symbol_to_completion_item(symbol: &Symbol) -> (r: CompletionItem)
    ensures
        is_symbol_item(r, *symbol),
{
    let kind = match i32_to_symbol_kind(symbol.kind) {
        SymbolKind::FUNCTION => CompletionItemKind::Function,
        SymbolKind::ENUM => CompletionItemKind::Enum,
        SymbolKind::STRUCT => CompletionItemKind::Struct,
        SymbolKind::CONSTANT => CompletionItemKind::Constant,
        SymbolKind::MODULE => CompletionItemKind::Module,
        _ => CompletionItemKind::Text,
    };
    let detail = match &symbol.signature {
        Some(sig) => {
            let sc = chars_of(sig.as_str());
            let sep = chars_of(" : ");
            match find_text(sc.as_slice(), sep.as_slice()) {
                Some(i) => {
                    let mut rest: Vec<char> = Vec::new();
                    proof {
                        reveal_strlit(" : ");
                        assert(sep@.len() == 3);
                        assert(i + 3 <= sc@.len());
                    }
                    let n: usize = sc.len();
                    let mut k: usize = i + 3;
                    while k < sc.len()
                        invariant
                            i + 3 <= k <= sc@.len(),
                            rest@ == sc@.subrange(i + 3, k as int),
                        decreases sc.len() - k,
                    {
                        rest.push(sc[k]);
                        k = k + 1;
                        assert(rest@ =~= sc@.subrange(i + 3, k as int));
                    }
                    assert(rest@ =~= sig@.skip(i + 3));
                    string_from_chars(rest.as_slice())
                },
                None => sig.clone(),
            }
        },
        None => match &symbol.container {
            Some(c) => {
                let mut d = "from ".to_owned();
                d.append(c.as_str());
                d
            },
            None => "local".to_owned(),
        },
    };
    let documentation = match &symbol.signature {
        Some(sig) => {
            let mut m = "```gren\n".to_owned();
            m.append(sig.as_str());
            m.append("\n```");
            Some(Documentation::Markdown(m))
        },
        None => None,
    };
    CompletionItem {
        label: symbol.name.clone(),
        kind: Some(kind),
        detail: Some(detail),
        documentation,
        insert_text: Some(symbol.name.clone()),
        additional_text_edits: None,
        sort_text: None,
        filter_text: None,
    }
}

/// The item offered for a local variable.
pub fn local_variable_to_completion_item(var: &LocalVariable) -> (r: CompletionItem)
    ensures
        is_variable_item(r, *var),
{
    let documentation = match &var.type_hint {
        Some(t) => {
            let mut d = "Type: ".to_owned();
            d.append(t.as_str());
            Some(Documentation::String(d))
        },
        None => None,
    };
    CompletionItem {
        label: var.name.clone(),
        kind: Some(CompletionItemKind::Variable),
        detail: Some("local variable".to_owned()),
        documentation,
        insert_text: Some(var.name.clone()),
        additional_text_edits: None,
        sort_text: None,
        filter_text: None,
    }
}

/// The items of a module's members: the symbols that start with the prefix,
/// by name.  (Every such label starts with the prefix, so ordering exact
/// prefix matches first and then by label is ordering by name.)
pub fn complete_module_members(module_symbols: Vec<Symbol>, prefix: &str) -> (r: Vec<CompletionItem>)
    ensures
        r@.len() == stable_sorted(prefixed(module_symbols@, prefix@)).len(),
        forall|i: int|
            0 <= i < r@.len() ==> is_symbol_item(
                #[trigger] r@[i],
                stable_sorted(prefixed(module_symbols@, prefix@))[i],
            ),
{
    let filtered = symbols_with_prefix(module_symbols, prefix);
    let sorted = stable_sort(filtered);
    let mut items: Vec<CompletionItem> = Vec::new();
    let mut i: usize = 0;
    while i < sorted.len()
        invariant
            0 <= i <= sorted@.len(),
            items@.len() == i,
            forall|j: int| 0 <= j < i ==> is_symbol_item(#[trigger] items@[j], sorted@[j]),
        decreases sorted.len() - i,
    {
        items.push(symbol_to_completion_item(&sorted[i]));
        i = i + 1;
    }
    items
}

/// The members offered after `Module.` are the module's symbols whose name
/// starts with the typed prefix, in name order.
pub proof fn law_module_members_by_name(ss: Seq<Symbol>, prefix: Seq<char>)
    ensures
        ({
            let r = stable_sorted(prefixed(ss, prefix));
            &&& forall|i: int| 0 <= i < r.len() ==> prefix.len() <= (#[trigger] r[i]).name@.len() && r[i].name@.take(
                prefix.len() as int,
            ) == prefix
            &&& forall|i: int, j: int| #![trigger r[i], r[j]] 0 <= i < j < r.len() ==> !lex_lt(r[j].name@, r[i].name@)
            &&& forall|j: int| 0 <= j < r.len() ==> exists|k: int| 0 <= k < ss.len() && #[trigger] r[j] == ss[k]
        }),
{
    let f = |s: Symbol| prefix.len() <= s.name@.len() && s.name@.take(prefix.len() as int) == prefix;
    law_prefixed_keeps_matching_names(ss, prefix);
    let p = prefixed(ss, prefix);
    broadcast use vstd::seq_lib::group_filter_ensures;
    lemma_symbol_weak_order();
    lemma_stable_sorted_in_order(p);
    lemma_stable_sorted_elements(p);
    let r = stable_sorted(p);
    assert forall|i: int| 0 <= i < r.len() implies prefix.len() <= (#[trigger] r[i]).name@.len() && r[i].name@.take(
        prefix.len() as int,
    ) == prefix by {
        let k = choose|k: int| 0 <= k < p.len() && r[i] == #[trigger] p[k];
        assert(f(p[k]));
    }
    assert forall|j: int| 0 <= j < r.len() implies exists|k: int| 0 <= k < ss.len() && #[trigger] r[j] == ss[k] by {
        let m = choose|m: int| 0 <= m < p.len() && r[j] == #[trigger] p[m];
        assert(ss.filter(f)[m] == p[m]);
        assert(ss.filter(f).contains(p[m]));
        ss.lemma_filter_contains_rev(f, p[m]);
        let k = choose|k: int| 0 <= k < ss.len() && ss[k] == p[m];
        assert(r[j] == ss[k]);
    }
    assert forall|i: int, j: int| #![trigger r[i], r[j]] 0 <= i < j < r.len() implies !lex_lt(r[j].name@, r[i].name@) by {
        assert(!r[j].precedes(&r[i]));
    }
}

/// The local variables that start with the prefix, in order.
pub open spec fn variables_with_prefix(vs: Seq<LocalVariable>, prefix: Seq<char>) -> Seq<LocalVariable>
    decreases vs.len(),
{
    if vs.len() == 0 {
        Seq::empty()
    } else {
        let r = variables_with_prefix(vs.drop_last(), prefix);
        if starts_with(vs.last().name@, prefix) {
            r.push(vs.last())
        } else {
            r
        }
    }
}

/// The candidates of a local-scope completion, before ranking: the local
/// variables that start with the prefix, then the indexed symbols that do,
/// then the items that come with an import.
pub fn local_scope_candidates(
    locals: &Vec<LocalVariable>,
    indexed: Vec<Symbol>,
    import_items: Vec<CompletionItem>,
    prefix: &str,
) -> (r: Vec<CompletionItem>)
    ensures
        ({
            let vs = variables_with_prefix(locals@, prefix@);
            let ss = prefixed(indexed@, prefix@);
            &&& r@.len() == vs.len() + ss.len() + import_items@.len()
            &&& forall|i: int| 0 <= i < vs.len() ==> is_variable_item(#[trigger] r@[i], vs[i])
            &&& forall|i: int|
                vs.len() <= i < vs.len() + ss.len() ==> is_symbol_item(#[trigger] r@[i], ss[i - vs.len()])
            &&& forall|i: int|
                0 <= i < import_items@.len() ==> #[trigger] r@[vs.len() + ss.len() + i] == import_items@[i]
        }),
{
    let pre = chars_of(prefix);
    let ghost vs = variables_with_prefix(locals@, prefix@);
    let mut items: Vec<CompletionItem> = Vec::new();
    let ghost chosen: Seq<LocalVariable> = Seq::empty();
    let mut i: usize = 0;
    assert(locals@.take(0) =~= Seq::<LocalVariable>::empty());
    while i < locals.len()
        invariant
            0 <= i <= locals@.len(),
            pre@ == prefix@,
            chosen == variables_with_prefix(locals@.take(i as int), prefix@),
            items@.len() == chosen.len(),
            forall|j: int| 0 <= j < items@.len() ==> is_variable_item(#[trigger] items@[j], chosen[j]),
        decreases locals.len() - i,
    {
        assert(locals@.take(i + 1).drop_last() =~= locals@.take(i as int));
        let nc = chars_of(locals[i].name.as_str());
        if has_prefix(nc.as_slice(), pre.as_slice()) {
            items.push(local_variable_to_completion_item(&locals[i]));
            proof {
                chosen = chosen.push(locals@[i as int]);
            }
        }
        i = i + 1;
    }
    assert(locals@.take(locals@.len() as int) =~= locals@);
    let n_vars = items.len();
    let symbols = symbols_with_prefix(indexed, prefix);
    let mut k: usize = 0;
    while k < symbols.len()
        invariant
            0 <= k <= symbols@.len(),
            n_vars == vs.len(),
            items@.len() == n_vars + k,
            forall|j: int| 0 <= j < n_vars ==> is_variable_item(#[trigger] items@[j], vs[j]),
            forall|j: int| n_vars <= j < n_vars + k ==> is_symbol_item(#[trigger] items@[j], symbols@[j - n_vars]),
        decreases symbols.len() - k,
    {
        items.push(symbol_to_completion_item(&symbols[k]));
        k = k + 1;
    }
    let ghost before = items@;
    let mut more = import_items;
    let ghost im = more@;
    items.append(&mut more);
    assert forall|j: int| 0 <= j < im.len() implies #[trigger] items@[before.len() + j] == im[j] by {}
    items
}

impl Ranked for CompletionItem {
    /// Local variables first, then by label.
    open spec fn precedes(&self, other: &Self) -> bool {
        let a = self.kind == Some(CompletionItemKind::Variable);
        let b = other.kind == Some(CompletionItemKind::Variable);
        (a && !b) || (a == b && lex_lt(self.label@, other.label@))
    }

    fn goes_before(&self, other: &Self) -> (r: bool) {
        let a = self.kind == Some(CompletionItemKind::Variable);
        let b = other.kind == Some(CompletionItemKind::Variable);
        (a && !b) || (a == b && str_less(self.label.as_str(), other.label.as_str()))
    }
}

/// The items ranked: local variables first, then by label (a stable sort).
pub fn rank_local_first(items: Vec<CompletionItem>) -> (r: Vec<CompletionItem>)
    ensures
        r@ == stable_sorted(items@),
{
    stable_sort(items)
}

/// Ranking completion items puts every local variable before every other
/// item, and keeps the items: the same number, each one of the input.
pub proof fn law_local_variables_first(items: Seq<CompletionItem>)
    ensures
        ({
            let r = stable_sorted(items);
            &&& r.len() == items.len()
            &&& forall|j: int| 0 <= j < r.len() ==> exists|i: int| 0 <= i < items.len() && #[trigger] r[j] == items[i]
            &&& forall|i: int, j: int|
                0 <= i < j < r.len() && (#[trigger] r[j]).kind == Some(CompletionItemKind::Variable) ==> (
                #[trigger] r[i]).kind == Some(CompletionItemKind::Variable)
        }),
{
    let key = |c: CompletionItem| if c.kind == Some(CompletionItemKind::Variable) { 1int } else { 0int };
    assert forall|x: CompletionItem, y: CompletionItem| #[trigger] x.precedes(&y) implies key(x) >= key(y) by {}
    assert forall|x: CompletionItem, y: CompletionItem| key(x) > key(y) implies #[trigger] x.precedes(&y) by {}
    assert(key_agrees(key));
    lemma_stable_sorted_keys(items, key);
    lemma_stable_sorted_elements(items);
    let r = stable_sorted(items);
    assert forall|i: int, j: int|
        0 <= i < j < r.len() && (#[trigger] r[j]).kind == Some(CompletionItemKind::Variable) implies (
        #[trigger] r[i]).kind == Some(CompletionItemKind::Variable) by {
        assert(key(r[i]) >= key(r[j]));
    }
}

/// The items of a type completion: the custom types and aliases that start
/// with the prefix, then the built-in types that do.
pub fn complete_types(enums: Vec<Symbol>, structs: Vec<Symbol>, prefix: &str) -> (r: Vec<CompletionItem>)
    ensures
        ({
            let ss = prefixed(enums@ + structs@, prefix@);
            let bs = words_with_prefix(builtin_types(), prefix@);
            &&& r@.len() == ss.len() + bs.len()
            &&& forall|i: int| 0 <= i < ss.len() ==> is_symbol_item(#[trigger] r@[i], ss[i])
            &&& forall|i: int| 0 <= i < bs.len() ==> is_builtin_type_item(#[trigger] r@[ss.len() + i], bs[i])
        }),
{
    let mut all = enums;
    let mut more = structs;
    all.append(&mut more);
    let symbols = symbols_with_prefix(all, prefix);
    let mut items: Vec<CompletionItem> = Vec::new();
    let mut k: usize = 0;
    while k < symbols.len()
        invariant
            0 <= k <= symbols@.len(),
            items@.len() == k,
            forall|j: int| 0 <= j < k ==> is_symbol_item(#[trigger] items@[j], symbols@[j]),
        decreases symbols.len() - k,
    {
        items.push(symbol_to_completion_item(&symbols[k]));
        k = k + 1;
    }
    let n = items.len();
    let mut builtins = complete_builtin_types(prefix);
    let ghost b = builtins@;
    items.append(&mut builtins);
    assert forall|i: int| 0 <= i < b.len() implies is_builtin_type_item(#[trigger] items@[n + i], words_with_prefix(builtin_types(), prefix@)[i]) by {
        assert(items@[n + i] == b[i]);
    }
    items
}

/// The candidates of a local-scope completion (see `local_scope_candidates`).
pub open spec fn are_local_candidates(
    c: Seq<CompletionItem>,
    locals: Seq<LocalVariable>,
    indexed: Seq<Symbol>,
    import_items: Seq<CompletionItem>,
    prefix: Seq<char>,
) -> bool {
    let vs = variables_with_prefix(locals, prefix);
    let ss = prefixed(indexed, prefix);
    &&& c.len() == vs.len() + ss.len() + import_items.len()
    &&& forall|i: int| 0 <= i < vs.len() ==> is_variable_item(#[trigger] c[i], vs[i])
    &&& forall|i: int| vs.len() <= i < vs.len() + ss.len() ==> is_symbol_item(#[trigger] c[i], ss[i - vs.len()])
    &&& forall|i: int| 0 <= i < import_items.len() ==> #[trigger] c[vs.len() + ss.len() + i] == import_items[i]
}

/// The items of a local-scope completion: the candidates of
/// `local_scope_candidates`, local variables first, then by label.
pub fn complete_local_scope(
    locals: &Vec<LocalVariable>,
    indexed: Vec<Symbol>,
    import_items: Vec<CompletionItem>,
    prefix: &str,
) -> (r: Vec<CompletionItem>)
    ensures
        exists|c: Seq<CompletionItem>|
            #[trigger] are_local_candidates(c, locals@, indexed@, import_items@, prefix@) && r@
                == stable_sorted(c),
{
    let ghost imports = import_items@;
    let candidates = local_scope_candidates(locals, indexed, import_items, prefix);
    let ghost c = candidates@;
    let r = rank_local_first(candidates);
    assert(r@ == stable_sorted(c));
    assert(are_local_candidates(c, locals@, indexed@, imports, prefix@));
    r
}

/// What a completion request draws on, fetched for the kind of completion
/// the context calls for (see `determine_completion_type`).
pub enum CompletionData {
    /// The symbols available from the module before the dot.
    ModuleMembers(Vec<Symbol>),
    /// The variables in scope, the indexed symbols of the prefix, and the
    /// items that come with an import.
    LocalScope { locals: Vec<LocalVariable>, indexed: Vec<Symbol>, import_items: Vec<CompletionItem> },
    Keywords,
    Imports,
    /// The custom types and the type aliases of the index.
    Types { enums: Vec<Symbol>, structs: Vec<Symbol> },
}

/// The data fits the kind of completion.
pub open spec fn data_fits(t: crate::completion::CompletionType, d: CompletionData) -> bool {
    match t {
        crate::completion::CompletionType::ModuleMember { .. } => d is ModuleMembers,
        crate::completion::CompletionType::LocalScope => d is LocalScope,
        crate::completion::CompletionType::Keyword => d is Keywords,
        crate::completion::CompletionType::Import => d is Imports,
        crate::completion::CompletionType::Type => d is Types,
    }
}

/// Answers a completion request: the items of the kind of completion the
/// context calls for, from the data fetched for it; module names after
/// `import` are not offered.
pub fn handle_completion(context: &crate::completion::CompletionContext, data: CompletionData) -> (r: Option<Vec<CompletionItem>>)
    requires
        exists|t: crate::completion::CompletionType|
            crate::completion::is_completion_type_of(t, context.line_prefix@, context.word_prefix@)
                && data_fits(t, data),
    ensures
        r is Some,
        data is Imports ==> (r matches Some(v) && v@.len() == 0),
        data matches CompletionData::ModuleMembers(ms) ==> (r matches Some(v) && v@.len()
            == stable_sorted(prefixed(ms@, context.word_prefix@)).len() && forall|i: int|
            0 <= i < v@.len() ==> is_symbol_item(
                #[trigger] v@[i],
                stable_sorted(prefixed(ms@, context.word_prefix@))[i],
            )),
        data is Keywords ==> (r matches Some(v) && v@.len() == crate::completion::words_with_prefix(
            crate::completion::gren_keywords(),
            context.word_prefix@,
        ).len() && forall|i: int|
            0 <= i < v@.len() ==> crate::completion::is_keyword_item(
                #[trigger] v@[i],
                crate::completion::words_with_prefix(crate::completion::gren_keywords(), context.word_prefix@)[i],
            )),
        data matches CompletionData::LocalScope { locals, indexed, import_items } ==> (r matches Some(v)
            && exists|c: Seq<CompletionItem>|
            #[trigger] are_local_candidates(c, locals@, indexed@, import_items@, context.word_prefix@) && v@
                == stable_sorted(c)),
        data matches CompletionData::Types { enums, structs } ==> (r matches Some(v) && {
            let ss = prefixed(enums@ + structs@, context.word_prefix@);
            let bs = words_with_prefix(builtin_types(), context.word_prefix@);
            &&& v@.len() == ss.len() + bs.len()
            &&& forall|i: int| 0 <= i < ss.len() ==> is_symbol_item(#[trigger] v@[i], ss[i])
            &&& forall|i: int| 0 <= i < bs.len() ==> is_builtin_type_item(#[trigger] v@[ss.len() + i], bs[i])
        }),
{
    let prefix = context.word_prefix.as_str();
    let items = match data {
        CompletionData::ModuleMembers(ms) => complete_module_members(ms, prefix),
        CompletionData::LocalScope { locals, indexed, import_items } => complete_local_scope(
            &locals,
            indexed,
            import_items,
            prefix,
        ),
        CompletionData::Keywords => crate::completion::complete_keywords(prefix),
        CompletionData::Imports => Vec::new(),
        CompletionData::Types { enums, structs } => complete_types(enums, structs, prefix),
    };
    Some(items)
}

} // verus!

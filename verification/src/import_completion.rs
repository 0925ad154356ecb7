//! Completions for symbols of other modules that the file does not import
//! yet: each comes in two variants, exposed and qualified, with the import
//! it needs as an additional edit.
use vstd::prelude::*;
use vstd::string::*;
use crate::code_actions::{edits_model, import_module_of};
use crate::completion::{CompletionItem, CompletionItemKind, Documentation};
use crate::imports::{strategy_action, ImportManager, ImportVariant};
use crate::ordering::str_equal;
use crate::protocol::{Range, TextEdit};
use crate::search::copy_symbol;
use crate::symbols::{exposed_names, i32_to_symbol_kind, kind_of_number, ImportInfo, Symbol, SymbolKind};

verus! {

/// A completion that imports its symbol.
#[derive(Debug, Clone)]
pub struct ImportCompletionItem {
    pub completion_item: CompletionItem,
    pub import_variant: ImportVariant,
    pub symbol: Symbol,
}

/// The module a symbol belongs to, empty when it has none.
pub open spec fn container_text(s: Symbol) -> Seq<char> {
    match s.container {
        Some(c) => c@,
        None => Seq::empty(),
    }
}

/// The symbol is already available: an import of its module exposes
/// everything, or lists it.
pub open spec fn already_imported(s: Symbol, imports: Seq<ImportInfo>) -> bool {
    exists|i: int|
        0 <= i < imports.len() && (#[trigger] imports[i]).imported_module@ == container_text(s) && (
        imports[i].exposing_all || exposed_names(imports[i]).contains(s.name@))
}

/// The symbols not yet available, in order.
pub open spec fn unimported(symbols: Seq<Symbol>, imports: Seq<ImportInfo>) -> Seq<Symbol>
    decreases symbols.len(),
{
    if symbols.len() == 0 {
        Seq::empty()
    } else if already_imported(symbols.last(), imports) {
        unimported(symbols.drop_last(), imports)
    } else {
        unimported(symbols.drop_last(), imports).push(symbols.last())
    }
}

/// Import completion offers, in order, exactly the symbols that no import of
/// their module makes available: an import of the module that exposes
/// everything, or that lists the symbol's name, hides it; a symbol whose
/// module is not imported is offered.
pub proof fn law_offers_symbols_not_yet_available(symbols: Seq<Symbol>, imports: Seq<ImportInfo>)
    ensures
        unimported(symbols, imports) == symbols.filter(
            |s: Symbol|
                !(exists|i: int|
                    0 <= i < imports.len() && (#[trigger] imports[i]).imported_module@ == (match s.container {
                        Some(c) => c@,
                        None => Seq::<char>::empty(),
                    }) && (imports[i].exposing_all || exposed_names(imports[i]).contains(s.name@))),
        ),
    decreases symbols.len(),
{
    reveal_with_fuel(Seq::filter, 1);
    if symbols.len() > 0 {
        law_offers_symbols_not_yet_available(symbols.drop_last(), imports);
    } else {
        assert(symbols.filter(
            |s: Symbol|
                !(exists|i: int|
                    0 <= i < imports.len() && (#[trigger] imports[i]).imported_module@ == (match s.container {
                        Some(c) => c@,
                        None => Seq::<char>::empty(),
                    }) && (imports[i].exposing_all || exposed_names(imports[i]).contains(s.name@))),
        ) =~= Seq::<Symbol>::empty());
    }
}

fn lists_name(i: &ImportInfo, name: &str) -> (r: bool)
    ensures
        r == exposed_names(*i).contains(name@),
{
    let names = i.get_imported_symbols();
    let mut k: usize = 0;
    while k < names.len()
        invariant
            0 <= k <= names@.len(),
            names.deep_view() == exposed_names(*i),
            forall|x: int| 0 <= x < k ==> names@[x]@ != name@,
        decreases names.len() - k,
    {
        assert(names.deep_view()[k as int] == names@[k as int]@);
        if str_equal(names[k].as_str(), name) {
            assert(exposed_names(*i)[k as int] == name@);
            return true;
        }
        k = k + 1;
    }
    proof {
        if exposed_names(*i).contains(name@) {
            let x = choose|x: int| 0 <= x < exposed_names(*i).len() && exposed_names(*i)[x] == name@;
            assert(names.deep_view()[x] == names@[x]@);
        }
    }
    false
}

fn is_already_imported(s: &Symbol, imports: &Vec<ImportInfo>) -> (r: bool)
    ensures
        r == already_imported(*s, imports@),
{
    let container: &str = match &s.container {
        Some(c) => c.as_str(),
        None => "",
    };
    proof {
        reveal_strlit("");
    }
    assert(container@ == container_text(*s));
    let mut i: usize = 0;
    while i < imports.len()
        invariant
            0 <= i <= imports@.len(),
            container@ == container_text(*s),
            forall|x: int|
                0 <= x < i ==> !((#[trigger] imports@[x]).imported_module@ == container_text(*s) && (
                imports@[x].exposing_all || exposed_names(imports@[x]).contains(s.name@))),
        decreases imports.len() - i,
    {
        let imp = &imports[i];
        if str_equal(imp.imported_module.as_str(), container) {
            if imp.exposing_all || lists_name(imp, s.name.as_str()) {
                return true;
            }
        }
        i = i + 1;
    }
    false
}

/// The symbols that are not yet available through the file's imports.
pub fn filter_unimported_symbols(workspace_symbols: Vec<Symbol>, current_imports: &Vec<ImportInfo>) -> (r: Vec<
    Symbol,
>)
    ensures
        r@ == unimported(workspace_symbols@, current_imports@),
{
    let ghost all = workspace_symbols@;
    let n = workspace_symbols.len();
    let mut rest = workspace_symbols;
    let mut kept: Vec<Symbol> = Vec::new();
    let mut i: usize = 0;
    assert(all.take(0) =~= Seq::<Symbol>::empty());
    while rest.len() > 0
        invariant
            all.len() == n,
            0 <= i <= n,
            rest.len() == n - i,
            rest@ == all.skip(i as int),
            kept@ == unimported(all.take(i as int), current_imports@),
        decreases rest.len(),
    {
        let s = rest.remove(0);
        assert(s == all[i as int]);
        assert(rest@ =~= all.skip(i + 1));
        assert(all.take(i + 1).drop_last() =~= all.take(i as int));
        assert(all.take(i + 1).last() == s);
        if !is_already_imported(&s, current_imports) {
            kept.push(s);
        }
        i = i + 1;
    }
    assert(all.take(n as int) =~= all);
    kept
}

/// The completion kind of an importable symbol.
pub open spec fn import_item_kind(k: SymbolKind) -> CompletionItemKind {
    match k {
        SymbolKind::FUNCTION => CompletionItemKind::Function,
        SymbolKind::ENUM => CompletionItemKind::Class,
        SymbolKind::STRUCT => CompletionItemKind::Class,
        SymbolKind::CONSTANT => CompletionItemKind::Constant,
        SymbolKind::MODULE => CompletionItemKind::Module,
        _ => CompletionItemKind::Value,
    }
}

/// The completion kind of an importable symbol.
pub fn symbol_to_completion_kind(symbol: &Symbol) -> (r: CompletionItemKind)
    ensures
        r == import_item_kind(kind_of_number(symbol.kind)),
{
    match i32_to_symbol_kind(symbol.kind) {
        SymbolKind::FUNCTION => CompletionItemKind::Function,
        SymbolKind::ENUM => CompletionItemKind::Class,
        SymbolKind::STRUCT => CompletionItemKind::Class,
        SymbolKind::CONSTANT => CompletionItemKind::Constant,
        SymbolKind::MODULE => CompletionItemKind::Module,
        _ => CompletionItemKind::Value,
    }
}

/// The symbol's signature, or `unknown`.
pub open spec fn signature_or_unknown(s: Symbol) -> Seq<char> {
    match s.signature {
        Some(t) => t@,
        None => "unknown"@,
    }
}

/// The import statement a variant needs.
pub open spec fn variant_statement(variant: ImportVariant, module: Seq<char>, name: Seq<char>) -> Seq<char> {
    match variant {
        ImportVariant::Exposed => "import "@ + module + " exposing ("@ + name + ")"@,
        ImportVariant::Qualified => "import "@ + module,
    }
}

fn statement_for(variant: ImportVariant, module_name: &str, name: &str) -> (r: String)
    ensures
        r@ == variant_statement(variant, module_name@, name@),
{
    let mut s = "import ".to_string();
    s.append(module_name);
    if let ImportVariant::Exposed = variant {
        s.append(" exposing (");
        s.append(name);
        s.append(")");
    }
    s
}

fn signature_text(symbol: &Symbol) -> (r: String)
    ensures
        r@ == signature_or_unknown(*symbol),
{
    match &symbol.signature {
        Some(t) => t.clone(),
        None => "unknown".to_string(),
    }
}

/// The detail of an import completion: the signature, then the import it adds.
pub open spec fn import_detail(s: Symbol, variant: ImportVariant, module: Seq<char>) -> Seq<char> {
    signature_or_unknown(s) + "\n📦 "@ + variant_statement(variant, module, s.name@)
}

/// The detail of an import completion (see `import_detail`).
pub fn format_symbol_detail(symbol: &Symbol, variant: ImportVariant, module_name: &str) -> (r: String)
    ensures
        r@ == import_detail(*symbol, variant, module_name@),
{
    let mut d = signature_text(symbol);
    d.append("\n📦 ");
    let st = statement_for(variant, module_name, symbol.name.as_str());
    d.append(st.as_str());
    d
}

/// The documentation of an import completion: the signature as Gren code,
/// and the import statement it adds.
pub open spec fn import_documentation(s: Symbol, variant: ImportVariant, module: Seq<char>) -> Seq<char> {
    "```gren\n"@ + signature_or_unknown(s) + "\n```\n\nThis completion will automatically add:\n```gren\n"@
        + variant_statement(variant, module, s.name@) + "\n```"@
}

/// The documentation of an import completion (see `import_documentation`).
pub fn create_import_documentation(symbol: &Symbol, variant: ImportVariant, module_name: &str) -> (r: Option<
    Documentation,
>)
    ensures
        r matches Some(Documentation::Markdown(m)) && m@ == import_documentation(*symbol, variant, module_name@),
{
    let mut d = "```gren\n".to_string();
    let sig = signature_text(symbol);
    d.append(sig.as_str());
    d.append("\n```\n\nThis completion will automatically add:\n```gren\n");
    let st = statement_for(variant, module_name, symbol.name.as_str());
    d.append(st.as_str());
    d.append("\n```");
    Some(Documentation::Markdown(d))
}

/// The edits that make the symbol available in a variant: none when an
/// import already does, else the new import statement on a line of its own.
pub open spec fn variant_edits(
    module: Seq<char>,
    name: Seq<char>,
    imports: Seq<ImportInfo>,
    variant: ImportVariant,
) -> Seq<(Range, Seq<char>)> {
    match strategy_action(module, name, imports, variant) {
        None => Seq::empty(),
        Some((p, t)) => seq![(Range { start: p, end: p }, t + "\n"@)],
    }
}

/// The completion of a symbol in a variant: the exposed one inserts the
/// name and sorts first, the qualified one inserts `Module.name`.
pub open spec fn is_variant_item(
    item: ImportCompletionItem,
    s: Symbol,
    module: Seq<char>,
    imports: Seq<ImportInfo>,
    variant: ImportVariant,
) -> bool {
    let c = item.completion_item;
    let text = match variant {
        ImportVariant::Exposed => s.name@,
        ImportVariant::Qualified => module + "."@ + s.name@,
    };
    let sort = match variant {
        ImportVariant::Exposed => "1_"@ + text,
        ImportVariant::Qualified => "2_"@ + text,
    };
    &&& item.import_variant == variant
    &&& item.symbol == s
    &&& c.label@ == text
    &&& c.kind == Some(import_item_kind(kind_of_number(s.kind)))
    &&& c.detail matches Some(d) && d@ == import_detail(s, variant, module)
    &&& c.documentation matches Some(Documentation::Markdown(m)) && m@ == import_documentation(s, variant, module)
    &&& c.insert_text matches Some(t) && t@ == text
    &&& c.additional_text_edits matches Some(e) && edits_model(e@) == variant_edits(module, s.name@, imports, variant)
    &&& c.sort_text matches Some(t) && t@ == sort
    &&& c.filter_text matches Some(t) && t@ == text
}

fn join2(a: &str, b: &str) -> (r: String)
    ensures
        r@ == a@ + b@,
{
    let mut s = a.to_string();
    s.append(b);
    s
}

proof fn lemma_edits_model_one(e: TextEdit)
    ensures
        edits_model(seq![e]) =~= seq![(e.range, e.new_text@)],
{
}

/// The completion of a symbol in a variant (see `is_variant_item`).
pub fn create_import_variant(
    symbol: &Symbol,
    module_name: &str,
    current_imports: &Vec<ImportInfo>,
    content: &str,
    variant: ImportVariant,
) -> (r: ImportCompletionItem)
    requires
        (current_imports@.len() as u32) + 3 <= u32::MAX,
    ensures
        is_variant_item(r, *symbol, module_name@, current_imports@, variant),
{
    let manager = ImportManager {  };
    let edits = match manager.determine_import_strategy(
        module_name,
        symbol.name.as_str(),
        current_imports.as_slice(),
        variant,
    ) {
        Ok(strategy) => match manager.generate_import_edits(content, &strategy) {
            Ok(e) => e,
            Err(_) => Vec::new(),
        },
        Err(_) => Vec::new(),
    };
    proof {
        match strategy_action(module_name@, symbol.name@, current_imports@, variant) {
            None => {
                assert(edits_model(edits@) =~= Seq::<(Range, Seq<char>)>::empty());
            },
            Some((p, t)) => {
                lemma_edits_model_one(edits@[0]);
                assert(edits@ =~= seq![edits@[0]]);
            },
        }
    }
    let text = match variant {
        ImportVariant::Exposed => symbol.name.clone(),
        ImportVariant::Qualified => {
            let q = join2(module_name, ".");
            join2(q.as_str(), symbol.name.as_str())
        },
    };
    let sort = match variant {
        ImportVariant::Exposed => join2("1_", text.as_str()),
        ImportVariant::Qualified => join2("2_", text.as_str()),
    };
    let completion_item = CompletionItem {
        label: text.clone(),
        kind: Some(symbol_to_completion_kind(symbol)),
        detail: Some(format_symbol_detail(symbol, variant, module_name)),
        documentation: create_import_documentation(symbol, variant, module_name),
        insert_text: Some(text.clone()),
        additional_text_edits: Some(edits),
        sort_text: Some(sort),
        filter_text: Some(text),
    };
    ImportCompletionItem { completion_item, import_variant: variant, symbol: copy_symbol_exact(symbol) }
}

fn copy_symbol_exact(s: &Symbol) -> (r: Symbol)
    ensures
        r == *s,
{
    copy_symbol(s)
}

/// The two completions of a symbol, exposed then qualified; none for a
/// symbol without a module.
pub fn generate_import_variants(symbol: &Symbol, current_imports: &Vec<ImportInfo>, content: &str) -> (r: Vec<
    ImportCompletionItem,
>)
    requires
        (current_imports@.len() as u32) + 3 <= u32::MAX,
    ensures
        symbol.container is None ==> r@.len() == 0,
        symbol.container matches Some(m) ==> r@.len() == 2 && is_variant_item(
            r@[0],
            *symbol,
            m@,
            current_imports@,
            ImportVariant::Exposed,
        ) && is_variant_item(r@[1], *symbol, m@, current_imports@, ImportVariant::Qualified),
{
    let mut v: Vec<ImportCompletionItem> = Vec::new();
    let module = match &symbol.container {
        Some(c) => c,
        None => return v,
    };
    v.push(create_import_variant(symbol, module.as_str(), current_imports, content, ImportVariant::Exposed));
    v.push(create_import_variant(symbol, module.as_str(), current_imports, content, ImportVariant::Qualified));
    v
}

/// The symbols that yield completions: the unimported ones with a module.
pub open spec fn with_module(symbols: Seq<Symbol>) -> Seq<Symbol>
    decreases symbols.len(),
{
    if symbols.len() == 0 {
        Seq::empty()
    } else if symbols.last().container is Some {
        with_module(symbols.drop_last()).push(symbols.last())
    } else {
        with_module(symbols.drop_last())
    }
}

/// The import completions of the symbols found for the word being typed:
/// for each symbol not yet available (see `filter_unimported_symbols`) that
/// has a module, its exposed and its qualified completion, in order.
pub fn complete_unimported_symbols(
    workspace_symbols: Vec<Symbol>,
    current_imports: &Vec<ImportInfo>,
    content: &str,
) -> (r: Vec<ImportCompletionItem>)
    requires
        (current_imports@.len() as u32) + 3 <= u32::MAX,
    ensures
        ({
            let ss = with_module(unimported(workspace_symbols@, current_imports@));
            &&& r@.len() == 2 * ss.len()
            &&& forall|i: int|
                0 <= i < ss.len() ==> is_variant_item(
                    #[trigger] r@[2 * i],
                    ss[i],
                    ss[i].container->0@,
                    current_imports@,
                    ImportVariant::Exposed,
                ) && is_variant_item(
                    r@[2 * i + 1],
                    ss[i],
                    ss[i].container->0@,
                    current_imports@,
                    ImportVariant::Qualified,
                )
        }),
{
    let symbols = filter_unimported_symbols(workspace_symbols, current_imports);
    let ghost us = symbols@;
    let mut items: Vec<ImportCompletionItem> = Vec::new();
    let mut i: usize = 0;
    assert(us.take(0) =~= Seq::<Symbol>::empty());
    while i < symbols.len()
        invariant
            0 <= i <= symbols@.len(),
            us == symbols@,
            (current_imports@.len() as u32) + 3 <= u32::MAX,
            items@.len() == 2 * with_module(us.take(i as int)).len(),
            forall|k: int|
                0 <= k < with_module(us.take(i as int)).len() ==> is_variant_item(
                    #[trigger] items@[2 * k],
                    with_module(us.take(i as int))[k],
                    with_module(us.take(i as int))[k].container->0@,
                    current_imports@,
                    ImportVariant::Exposed,
                ) && is_variant_item(
                    items@[2 * k + 1],
                    with_module(us.take(i as int))[k],
                    with_module(us.take(i as int))[k].container->0@,
                    current_imports@,
                    ImportVariant::Qualified,
                ),
        decreases symbols.len() - i,
    {
        assert(us.take(i + 1).drop_last() =~= us.take(i as int));
        assert(us.take(i + 1).last() == us[i as int]);
        let ghost before = items@;
        let ghost wm = with_module(us.take(i as int));
        let variants = generate_import_variants(&symbols[i], current_imports, content);
        let mut more = variants;
        let ghost added = more@;
        items.append(&mut more);
        proof {
            let nw = with_module(us.take(i + 1));
            assert forall|k: int| 0 <= k < nw.len() implies is_variant_item(
                #[trigger] items@[2 * k],
                nw[k],
                nw[k].container->0@,
                current_imports@,
                ImportVariant::Exposed,
            ) && is_variant_item(
                items@[2 * k + 1],
                nw[k],
                nw[k].container->0@,
                current_imports@,
                ImportVariant::Qualified,
            ) by {
                if k < wm.len() {
                    assert(nw[k] == wm[k]);
                    assert(items@[2 * k] == before[2 * k]);
                    assert(items@[2 * k + 1] == before[2 * k + 1]);
                } else {
                    assert(nw[k] == us[i as int]);
                    assert(items@[2 * k] == added[0]);
                    assert(items@[2 * k + 1] == added[1]);
                }
            }
        }
        i = i + 1;
    }
    assert(us.take(symbols@.len() as int) =~= us);
    items
}

} // verus!

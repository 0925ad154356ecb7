//! Import statements: how to make a symbol of another module available, and
//! the text of import statements.
use vstd::prelude::*;
use vstd::string::*;
use crate::ordering::{insert_ranked, lex_lt, stable_sort, stable_sorted, str_equal};
use crate::protocol::{Position, Range, TextEdit};
use crate::symbols::{exposed_names, ImportInfo};
use crate::text::{join_strings_with, join_text, string_texts};

verus! {

/// How an imported symbol is to be referred to.
#[derive(Debug, Clone, Copy, PartialEq, Eq, Structural)]
pub enum ImportVariant {
    /// `import Module exposing (symbol)`
    Exposed,
    /// `import Module`
    Qualified,
}

/// What to do to the imports of a file.
#[derive(Debug, Clone)]
pub enum ImportAction {
    /// Insert an import statement at a position.
    AddNew { position: Position, import_text: String },
    /// Replace an exposing list.
    ExtendExposing { range: Range, new_exposing_text: String },
    /// The symbol is already available.
    UseExisting,
}

/// How to make a symbol of a module available.
#[derive(Debug, Clone)]
pub struct ImportStrategy {
    pub variant: ImportVariant,
    pub module_name: String,
    pub symbol_name: String,
    pub action: ImportAction,
}

/// Why imports could not be merged.
#[derive(Debug, Clone, Copy, PartialEq, Eq, Structural)]
pub enum ImportError {
    DifferentModules,
}

/// Works out and writes import statements.
pub struct ImportManager {}

/// `x` inserted into `s` after every text that it does not come before,
/// scanning from the back.
pub open spec fn insert_text(s: Seq<Seq<char>>, x: Seq<char>) -> Seq<Seq<char>>
    decreases s.len(),
{
    if s.len() == 0 {
        seq![x]
    } else if lex_lt(x, s.last()) {
        insert_text(s.drop_last(), x).push(s.last())
    } else {
        s.push(x)
    }
}

/// Texts in lexicographic order (a stable insertion sort).
pub open spec fn sorted_texts(s: Seq<Seq<char>>) -> Seq<Seq<char>>
    decreases s.len(),
{
    if s.len() == 0 {
        s
    } else {
        insert_text(sorted_texts(s.drop_last()), s.last())
    }
}

proof fn lemma_insert_texts(s: Seq<String>, x: String)
    ensures
        string_texts(insert_ranked(s, x)) == insert_text(string_texts(s), x@),
    decreases s.len(),
{
    if s.len() == 0 {
        assert(string_texts(seq![x]) =~= seq![x@]);
    } else {
        assert(string_texts(s).drop_last() =~= string_texts(s.drop_last()));
        assert(string_texts(s).last() == s.last()@);
        if lex_lt(x@, s.last()@) {
            lemma_insert_texts(s.drop_last(), x);
            assert(string_texts(insert_ranked(s.drop_last(), x).push(s.last())) =~= string_texts(
                insert_ranked(s.drop_last(), x),
            ).push(s.last()@));
        } else {
            assert(string_texts(s.push(x)) =~= string_texts(s).push(x@));
        }
    }
}

/// Sorting strings orders their texts.
pub proof fn lemma_sorted_texts(v: Seq<String>)
    ensures
        string_texts(stable_sorted(v)) == sorted_texts(string_texts(v)),
    decreases v.len(),
{
    if v.len() > 0 {
        lemma_sorted_texts(v.drop_last());
        lemma_insert_texts(stable_sorted(v.drop_last()), v.last());
        assert(string_texts(v).drop_last() =~= string_texts(v.drop_last()));
    } else {
        assert(string_texts(v) =~= Seq::<Seq<char>>::empty());
    }
}

/// Texts without repeats of the one just before.
pub open spec fn dedup_texts(s: Seq<Seq<char>>) -> Seq<Seq<char>>
    decreases s.len(),
{
    if s.len() <= 1 {
        s
    } else {
        let r = dedup_texts(s.drop_last());
        if s.last() == s[s.len() - 2] {
            r
        } else {
            r.push(s.last())
        }
    }
}

/// An import statement: the module, then its exposed names in order.
pub open spec fn import_text(module: Seq<char>, names: Seq<Seq<char>>) -> Seq<char> {
    if names.len() == 0 {
        "import "@ + module
    } else {
        "import "@ + module + " exposing ("@ + join_text(sorted_texts(names), ", "@) + ")"@
    }
}

/// Where a new import goes: below the module declaration, or below the imports.
pub open spec fn import_position(count: nat) -> Position {
    if count == 0 {
        Position { line: 2, character: 0 }
    } else {
        Position { line: (3 + (count as u32)) as u32, character: 0 }
    }
}

/// The first import of module `m`, if any.
pub open spec fn import_index(imports: Seq<ImportInfo>, m: Seq<char>) -> int
    decreases imports.len(),
{
    if imports.len() == 0 {
        -1
    } else {
        let j = import_index(imports.drop_last(), m);
        if j >= 0 {
            j
        } else if imports.last().imported_module@ == m {
            imports.len() - 1
        } else {
            -1
        }
    }
}

/// The symbol is already available through the import `i`.
pub open spec fn available_through(i: ImportInfo, symbol: Seq<char>, variant: ImportVariant) -> bool {
    match variant {
        ImportVariant::Qualified => true,
        ImportVariant::Exposed => i.exposing_all || exposed_names(i).contains(symbol),
    }
}

/// What the import strategy does: nothing when an import of the module
/// already provides the symbol; otherwise a new import statement.
pub open spec fn strategy_action(
    module: Seq<char>,
    symbol: Seq<char>,
    imports: Seq<ImportInfo>,
    variant: ImportVariant,
) -> Option<(Position, Seq<char>)> {
    let j = import_index(imports, module);
    if j >= 0 && available_through(imports[j], symbol, variant) {
        None
    } else {
        Some(
            (
                import_position(imports.len()),
                match variant {
                    ImportVariant::Exposed => "import "@ + module + " exposing ("@ + symbol + ")"@,
                    ImportVariant::Qualified => "import "@ + module,
                },
            ),
        )
    }
}

proof fn lemma_import_index_is_first(imports: Seq<ImportInfo>, m: Seq<char>)
    ensures
        -1 <= import_index(imports, m) < imports.len(),
        import_index(imports, m) >= 0 ==> imports[import_index(imports, m)].imported_module@ == m,
        forall|k: int|
            0 <= k < imports.len() && (k < import_index(imports, m) || import_index(imports, m) == -1) ==> (
            #[trigger] imports[k]).imported_module@ != m,
    decreases imports.len(),
{
    if imports.len() > 0 {
        let t = imports.drop_last();
        lemma_import_index_is_first(t, m);
        assert forall|k: int| 0 <= k < t.len() implies t[k] == imports[k] by {}
    }
}

/// Adding an import for a symbol: when no import names its module, a new
/// statement goes at the import position (with the symbol exposed, or the
/// module alone for a qualified use); when the first import of the module
/// is `j`, nothing is added exactly when that import already provides the
/// symbol (a qualified use, an import exposing everything, or one that
/// lists the name).
pub proof fn law_import_added_only_when_needed(
    module: Seq<char>,
    symbol: Seq<char>,
    imports: Seq<ImportInfo>,
    variant: ImportVariant,
    j: int,
)
    ensures
        (forall|k: int| 0 <= k < imports.len() ==> (#[trigger] imports[k]).imported_module@ != module)
            ==> strategy_action(module, symbol, imports, variant) == Some(
            (
                import_position(imports.len()),
                match variant {
                    ImportVariant::Exposed => "import "@ + module + " exposing ("@ + symbol + ")"@,
                    ImportVariant::Qualified => "import "@ + module,
                },
            ),
        ),
        0 <= j < imports.len() && imports[j].imported_module@ == module && (forall|k: int|
            0 <= k < j ==> (#[trigger] imports[k]).imported_module@ != module) ==> (strategy_action(
            module,
            symbol,
            imports,
            variant,
        ) is None <==> (variant is Qualified || imports[j].exposing_all || exposed_names(imports[j]).contains(
            symbol,
        ))),
{
    lemma_import_index_is_first(imports, module);
    let i = import_index(imports, module);
    if 0 <= j < imports.len() && imports[j].imported_module@ == module && (forall|k: int|
        0 <= k < j ==> (#[trigger] imports[k]).imported_module@ != module) {
        if i < j {
            assert(imports[i].imported_module@ != module);
        }
        if i > j || i == -1 {
            assert(imports[j].imported_module@ != module);
        }
        assert(i == j);
    }
    if forall|k: int| 0 <= k < imports.len() ==> (#[trigger] imports[k]).imported_module@ != module {
        if i >= 0 {
            assert(imports[i].imported_module@ != module);
        }
    }
}

impl ImportManager {
    pub fn new() -> (r: Result<ImportManager, ImportError>)
        ensures
            r is Ok,
    {
        Ok(ImportManager {  })
    }

    /// Where a new import statement goes.
    pub fn calculate_import_position(&self, current_imports: &[ImportInfo]) -> (r: Position)
        requires
            (current_imports@.len() as u32) + 3 <= u32::MAX,
        ensures
            current_imports@.len() == 0 ==> r == (Position { line: 2, character: 0 }),
            current_imports@.len() > 0 ==> r == (Position {
                line: (3 + (current_imports@.len() as u32)) as u32,
                character: 0,
            }),
    {
        if current_imports.len() == 0 {
            Position { line: 2, character: 0 }
        } else {
            let n = current_imports.len() as u32;
            Position { line: 3 + n, character: 0 }
        }
    }

    /// The strategy that adds a new import statement.
    fn create_new_import_strategy(
        &self,
        module_name: &str,
        symbol_name: &str,
        variant: ImportVariant,
        current_imports: &[ImportInfo],
    ) -> (r: ImportStrategy)
        requires
            (current_imports@.len() as u32) + 3 <= u32::MAX,
        ensures
            r.variant == variant,
            r.module_name@ == module_name@,
            r.symbol_name@ == symbol_name@,
            r.action matches ImportAction::AddNew { position, import_text } && position
                == import_position(current_imports@.len()) && import_text@ == match variant {
                ImportVariant::Exposed => "import "@ + module_name@ + " exposing ("@ + symbol_name@
                    + ")"@,
                ImportVariant::Qualified => "import "@ + module_name@,
            },
    {
        let mut import_text = "import ".to_owned();
        import_text.append(module_name);
        match variant {
            ImportVariant::Exposed => {
                import_text.append(" exposing (");
                import_text.append(symbol_name);
                import_text.append(")");
            },
            ImportVariant::Qualified => {},
        }
        let position = self.calculate_import_position(current_imports);
        ImportStrategy {
            variant,
            module_name: module_name.to_owned(),
            symbol_name: symbol_name.to_owned(),
            action: ImportAction::AddNew { position, import_text },
        }
    }

    /// How to make `symbol_name` of `module_name` available in a file with
    /// these imports (see `strategy_action`).
    pub fn determine_import_strategy(
        &self,
        module_name: &str,
        symbol_name: &str,
        current_imports: &[ImportInfo],
        desired_variant: ImportVariant,
    ) -> (r: Result<ImportStrategy, ImportError>)
        requires
            (current_imports@.len() as u32) + 3 <= u32::MAX,
        ensures
            r matches Ok(s) && s.variant == desired_variant && s.module_name@ == module_name@
                && s.symbol_name@ == symbol_name@ && match strategy_action(
                module_name@,
                symbol_name@,
                current_imports@,
                desired_variant,
            ) {
                None => s.action is UseExisting,
                Some((p, t)) => s.action matches ImportAction::AddNew { position, import_text }
                    && position == p && import_text@ == t,
            },
    {
        let found = find_import(current_imports, module_name);
        proof {
            lemma_import_index_range(current_imports@, module_name@);
        }
        if let Some(k) = found {
            let existing = &current_imports[k];
            let available = match desired_variant {
                ImportVariant::Qualified => true,
                ImportVariant::Exposed => {
                    if existing.exposing_all {
                        true
                    } else {
                        let names = existing.get_imported_symbols();
                        let mut listed = false;
                        let mut i: usize = 0;
                        while i < names.len()
                            invariant
                                0 <= i <= names@.len(),
                                listed <==> exists|x: int| 0 <= x < i && names@[x]@ == symbol_name@,
                            decreases names.len() - i,
                        {
                            if str_equal(names[i].as_str(), symbol_name) {
                                listed = true;
                            }
                            i = i + 1;
                        }
                        proof {
                            assert(names.deep_view() =~= string_texts(names@));
                            if exposed_names(*existing).contains(symbol_name@) {
                                let x = choose|x: int|
                                    0 <= x < exposed_names(*existing).len() && exposed_names(
                                        *existing,
                                    )[x] == symbol_name@;
                                assert(names@[x]@ == symbol_name@);
                            }
                            if listed {
                                let x = choose|x: int| 0 <= x < i && names@[x]@ == symbol_name@;
                                assert(exposed_names(*existing)[x] == symbol_name@);
                            }
                        }
                        listed
                    }
                },
            };
            if available {
                return Ok(
                    ImportStrategy {
                        variant: desired_variant,
                        module_name: module_name.to_owned(),
                        symbol_name: symbol_name.to_owned(),
                        action: ImportAction::UseExisting,
                    },
                );
            }
        }
        Ok(self.create_new_import_strategy(module_name, symbol_name, desired_variant, current_imports))
    }

    /// The edits that carry out a strategy.
    pub fn generate_import_edits(&self, document_content: &str, strategy: &ImportStrategy) -> (r: Result<
        Vec<TextEdit>,
        ImportError,
    >)
        ensures
            r matches Ok(v) && match strategy.action {
                ImportAction::AddNew { position, import_text } => v@.len() == 1 && v@[0].range == (Range {
                    start: position,
                    end: position,
                }) && v@[0].new_text@ == import_text@ + "\n"@,
                ImportAction::ExtendExposing { range, new_exposing_text } => v@.len() == 1
                    && v@[0].range == range && v@[0].new_text@ == new_exposing_text@,
                ImportAction::UseExisting => v@.len() == 0,
            },
    {
        let mut v: Vec<TextEdit> = Vec::new();
        match &strategy.action {
            ImportAction::AddNew { position, import_text } => {
                let mut text = import_text.clone();
                text.append("\n");
                v.push(TextEdit { range: Range { start: *position, end: *position }, new_text: text });
            },
            ImportAction::ExtendExposing { range, new_exposing_text } => {
                v.push(TextEdit { range: *range, new_text: new_exposing_text.clone() });
            },
            ImportAction::UseExisting => {},
        }
        Ok(v)
    }

    /// The import statement of a module exposing the given names, in order.
    pub fn format_import_statement(&self, module_name: &str, exposing_symbols: &[String]) -> (r: String)
        ensures
            r@ == import_text(module_name@, string_texts(exposing_symbols@)),
    {
        let mut text = "import ".to_owned();
        text.append(module_name);
        if exposing_symbols.len() == 0 {
            return text;
        }
        let mut names: Vec<String> = Vec::new();
        let mut i: usize = 0;
        while i < exposing_symbols.len()
            invariant
                0 <= i <= exposing_symbols@.len(),
                names@ == exposing_symbols@.take(i as int),
            decreases exposing_symbols.len() - i,
        {
            names.push(exposing_symbols[i].clone());
            i = i + 1;
            assert(names@ =~= exposing_symbols@.take(i as int));
        }
        assert(exposing_symbols@.take(exposing_symbols@.len() as int) =~= exposing_symbols@);
        let ghost v = names@;
        let sorted = stable_sort(names);
        proof {
            lemma_sorted_texts(v);
        }
        let list = join_strings_with(&sorted, ", ");
        text.append(" exposing (");
        text.append(list.as_str());
        text.append(")");
        text
    }

    /// Whether two imports are of the same module.
    pub fn can_merge_imports(&self, import1: &ImportInfo, import2: &ImportInfo) -> (r: bool)
        ensures
            r == (import1.imported_module@ == import2.imported_module@),
    {
        str_equal(import1.imported_module.as_str(), import2.imported_module.as_str())
    }

    /// One import statement for two imports of the same module: their exposed
    /// names together, sorted, each once.
    pub fn merge_imports(&self, import1: &ImportInfo, import2: &ImportInfo) -> (r: Result<
        String,
        ImportError,
    >)
        ensures
            import1.imported_module@ != import2.imported_module@ ==> r == Err::<String, ImportError>(
                ImportError::DifferentModules,
            ),
            import1.imported_module@ == import2.imported_module@ ==> (r matches Ok(t) && t@
                == import_text(
                import1.imported_module@,
                dedup_texts(sorted_texts(exposed_names(*import1) + exposed_names(*import2))),
            )),
    {
        if !self.can_merge_imports(import1, import2) {
            return Err(ImportError::DifferentModules);
        }
        let mut all = import1.get_imported_symbols();
        let mut more = import2.get_imported_symbols();
        let ghost a = all@;
        let ghost b = more@;
        all.append(&mut more);
        proof {
            assert(string_texts(a) =~= exposed_names(*import1));
            assert(string_texts(b) =~= exposed_names(*import2));
            assert(string_texts(all@) =~= string_texts(a) + string_texts(b));
        }
        let ghost v = all@;
        let sorted = stable_sort(all);
        proof {
            lemma_sorted_texts(v);
        }
        let ghost st = string_texts(sorted@);
        let mut unique: Vec<String> = Vec::new();
        let mut i: usize = 0;
        assert(st.take(0) =~= Seq::<Seq<char>>::empty());
        while i < sorted.len()
            invariant
                0 <= i <= sorted@.len(),
                st == string_texts(sorted@),
                string_texts(unique@) == dedup_texts(st.take(i as int)),
                i > 0 ==> unique@.len() > 0 && unique@.last()@ == st[i - 1],
            decreases sorted.len() - i,
        {
            assert(st.take(i + 1).drop_last() =~= st.take(i as int));
            let repeat = i > 0 && str_equal(sorted[i].as_str(), sorted[i - 1].as_str());
            proof {
                lemma_dedup_last(st.take(i as int));
            }
            if !repeat {
                let ghost before = unique@;
                unique.push(sorted[i].clone());
                assert(string_texts(unique@) =~= string_texts(before).push(sorted@[i as int]@));
            }
            i = i + 1;
        }
        assert(st.take(st.len() as int) =~= st);
        Ok(self.format_import_statement(import1.imported_module.as_str(), unique.as_slice()))
    }
}

proof fn lemma_import_index_range(imports: Seq<ImportInfo>, m: Seq<char>)
    ensures
        -1 <= import_index(imports, m) < imports.len(),
        import_index(imports, m) >= 0 ==> imports[import_index(imports, m)].imported_module@ == m,
    decreases imports.len(),
{
    if imports.len() > 0 {
        lemma_import_index_range(imports.drop_last(), m);
    }
}

/// The first import of `module_name`.
fn find_import(current_imports: &[ImportInfo], module_name: &str) -> (r: Option<usize>)
    ensures
        r matches Some(k) ==> k == import_index(current_imports@, module_name@),
        r is None ==> import_index(current_imports@, module_name@) == -1,
{
    let mut j: usize = 0;
    assert(current_imports@.take(0) =~= Seq::<ImportInfo>::empty());
    while j < current_imports.len()
        invariant
            0 <= j <= current_imports@.len(),
            import_index(current_imports@.take(j as int), module_name@) == -1,
        decreases current_imports.len() - j,
    {
        assert(current_imports@.take(j + 1).drop_last() =~= current_imports@.take(j as int));
        if str_equal(current_imports[j].imported_module.as_str(), module_name) {
            proof {
                lemma_import_index_extends(current_imports@, j + 1, module_name@);
            }
            return Some(j);
        }
        j = j + 1;
    }
    assert(current_imports@.take(current_imports@.len() as int) =~= current_imports@);
    None
}

proof fn lemma_dedup_last(s: Seq<Seq<char>>)
    ensures
        s.len() > 0 ==> dedup_texts(s).len() > 0 && dedup_texts(s).last() == s.last(),
        s.len() == 0 ==> dedup_texts(s).len() == 0,
    decreases s.len(),
{
    if s.len() > 1 {
        lemma_dedup_last(s.drop_last());
    }
}

proof fn lemma_import_index_extends(imports: Seq<ImportInfo>, j: int, m: Seq<char>)
    requires
        0 < j <= imports.len(),
        import_index(imports.take(j - 1), m) == -1,
        imports[j - 1].imported_module@ == m,
    ensures
        import_index(imports, m) == j - 1,
    decreases imports.len() - j,
{
    assert(imports.take(j).drop_last() =~= imports.take(j - 1));
    if j < imports.len() {
        lemma_import_index_prefix(imports, j, m);
    } else {
        assert(imports.take(j) =~= imports);
    }
}

proof fn lemma_import_index_prefix(imports: Seq<ImportInfo>, j: int, m: Seq<char>)
    requires
        0 <= j <= imports.len(),
        import_index(imports.take(j), m) >= 0,
    ensures
        import_index(imports, m) == import_index(imports.take(j), m),
    decreases imports.len() - j,
{
    if j < imports.len() {
        assert(imports.take(j + 1).drop_last() =~= imports.take(j));
        lemma_import_index_prefix(imports, j + 1, m);
    } else {
        assert(imports.take(j) =~= imports);
    }
}

} // verus!

//! What a completion request at a cursor asks for: the word being typed, the
//! kind of completion the text before the cursor calls for, and the fixed
//! keyword and built-in type lists.
use vstd::prelude::*;
use crate::chars::{char_is_alphanumeric, char_is_uppercase, char_is_white_space, is_white_space, unicode_alphanumeric, unicode_uppercase};
use crate::line_scan::{
    ends_with, has_prefix, has_suffix, contains_char, slice_chars, starts_with, trim, trim_chars,
    trim_end, trim_end_chars, trim_start, trim_start_chars, trimmed_end_count, trimmed_end_len,
    lemma_trimmed_end_bound,
};
use crate::protocol::Position;
use crate::text::{
    byte_len, chars_in_bytes, chars_of, is_byte_boundary, lines, lines_of, locate_byte_offset,
    string_from_chars,
};

verus! {

/// The kind of completion the text before the cursor calls for.
#[derive(Debug, Clone, PartialEq, Eq)]
pub enum CompletionType {
    /// Member access on a module, e.g. `Module.`.
    ModuleMember { module_name: String },
    /// Local variables and functions.
    LocalScope,
    /// Keywords.
    Keyword,
    /// Module names after `import`.
    Import,
    /// Type names.
    Type,
}

/// What the cursor of a completion request sits in.
#[derive(Debug, Clone)]
pub struct CompletionContext {
    /// The position where completion was triggered.
    pub position: Position,
    /// The document's URI.
    pub uri: String,
    /// The document's content.
    pub content: String,
    /// The character that triggered completion, if any.
    pub trigger_character: Option<String>,
    /// The text of the cursor's line up to the cursor.
    pub line_prefix: String,
    /// The word being completed.
    pub word_prefix: String,
}

/// Why no completion context could be built.
#[derive(Debug, Clone, PartialEq, Eq, Structural)]
pub enum CompletionError {
    /// The requested line is past the last line of the document.
    LineOutOfRange,
}

/// A character that can belong to a word being completed.
pub open spec fn is_word_char(c: char) -> bool {
    unicode_alphanumeric(c) || c == '_'
}

/// Where the trailing run of word characters of `s` starts.
pub open spec fn word_start(s: Seq<char>) -> nat
    decreases s.len(),
{
    if s.len() == 0 {
        0
    } else if is_word_char(s.last()) {
        word_start(s.drop_last())
    } else {
        s.len()
    }
}

/// The word being completed: the trailing run of word characters.
pub open spec fn word_prefix_of(s: Seq<char>) -> Seq<char> {
    s.skip(word_start(s) as int)
}

/// Index of the last occurrence of `c` in `s`, or -1.
pub open spec fn last_index_of(s: Seq<char>, c: char) -> int
    decreases s.len(),
{
    if s.len() == 0 {
        -1
    } else if s.last() == c {
        s.len() - 1
    } else {
        last_index_of(s.drop_last(), c)
    }
}

/// Where the trailing run of non-white-space characters of `s` starts.
pub open spec fn run_start(s: Seq<char>) -> nat
    decreases s.len(),
{
    if s.len() == 0 {
        0
    } else if is_white_space(s.last()) {
        s.len()
    } else {
        run_start(s.drop_last())
    }
}

/// The last white-space separated word of `s`, if there is one.
pub open spec fn last_word(s: Seq<char>) -> Option<Seq<char>> {
    let e = trimmed_end_len(s);
    if e == 0 {
        None
    } else {
        let t = s.take(e as int);
        Some(t.skip(run_start(t) as int))
    }
}

/// The module whose members are being accessed: the last word before the last
/// `'.'` of the trimmed text, when that word starts with an uppercase letter.
pub open spec fn module_access_of(s: Seq<char>) -> Option<Seq<char>> {
    let t = trim_end(s);
    let d = last_index_of(t, '.');
    if d < 0 {
        None
    } else {
        match last_word(t.take(d)) {
            Some(w) => if unicode_uppercase(w[0]) {
                Some(w)
            } else {
                None
            },
            None => None,
        }
    }
}

/// The cursor is in a type: after a `:` with no `=`, or in a `type` declaration.
pub open spec fn type_context(s: Seq<char>) -> bool {
    let t = trim(s);
    (t.contains(':') && !t.contains('=')) || starts_with(t, "type "@)
}

/// The text after which keywords are offered.
pub open spec fn keyword_triggers() -> Seq<Seq<char>> {
    seq!["="@, "->"@, "when"@, "if"@, "then"@, "else"@, "let"@, "in"@]
}

/// Keywords are offered at the start of a line, with nothing typed of a word,
/// or after one of the trigger tokens.
pub open spec fn keyword_context(line_prefix: Seq<char>, word: Seq<char>) -> bool {
    let t = trim_start(line_prefix);
    t.len() == 0 || word.len() == 0 || exists|i: int|
        0 <= i < keyword_triggers().len() && ends_with(t, #[trigger] keyword_triggers()[i])
}

/// The completion kind for the text before the cursor, in order of precedence.
pub open spec fn completion_type_of(line_prefix: Seq<char>, word: Seq<char>) -> CompletionType {
    match module_access_of(line_prefix) {
        Some(m) => CompletionType::ModuleMember { module_name: arbitrary() },
        None => if starts_with(trim_start(line_prefix), "import "@) {
            CompletionType::Import
        } else if type_context(line_prefix) {
            CompletionType::Type
        } else if keyword_context(line_prefix, word) {
            CompletionType::Keyword
        } else {
            CompletionType::LocalScope
        },
    }
}

/// `t` is the completion kind of the text, a module member's name being the module's.
pub open spec fn is_completion_type_of(t: CompletionType, line_prefix: Seq<char>, word: Seq<char>) -> bool {
    match module_access_of(line_prefix) {
        Some(m) => t matches CompletionType::ModuleMember { module_name } && module_name@ == m,
        None => t == completion_type_of(line_prefix, word),
    }
}

/// The word being completed is the longest run of word characters (letters,
/// digits, `_`) that ends the text before the cursor.
pub proof fn law_word_prefix_is_trailing_word(s: Seq<char>)
    ensures
        word_start(s) <= s.len(),
        s == s.take(word_start(s) as int) + word_prefix_of(s),
        forall|i: int| 0 <= i < word_prefix_of(s).len() ==> is_word_char(#[trigger] word_prefix_of(s)[i]),
        word_start(s) > 0 ==> !is_word_char(s[word_start(s) - 1]),
    decreases s.len(),
{
    if s.len() > 0 && is_word_char(s.last()) {
        let t = s.drop_last();
        law_word_prefix_is_trailing_word(t);
        assert(word_prefix_of(s) =~= word_prefix_of(t).push(s.last()));
        assert forall|i: int| 0 <= i < word_prefix_of(s).len() implies is_word_char(#[trigger] word_prefix_of(s)[i]) by {
            if i < word_prefix_of(t).len() {
                assert(word_prefix_of(s)[i] == word_prefix_of(t)[i]);
            }
        }
        if word_start(s) > 0 {
            assert(s[word_start(s) - 1] == t[word_start(t) - 1]);
        }
    }
    assert(s =~= s.take(word_start(s) as int) + word_prefix_of(s));
}

proof fn lemma_run_start_after(a: Seq<char>, w: Seq<char>)
    requires
        a.len() == 0 || is_white_space(a.last()),
        forall|i: int| 0 <= i < w.len() ==> !is_white_space(#[trigger] w[i]),
    ensures
        run_start(a + w) == a.len(),
    decreases w.len(),
{
    if w.len() > 0 {
        assert((a + w).drop_last() =~= a + w.drop_last());
        lemma_run_start_after(a, w.drop_last());
        assert((a + w).last() == w[w.len() - 1]);
    } else {
        assert(a + w =~= a);
        if a.len() > 0 {
            assert(is_white_space(a.last()));
        }
    }
}

/// Member completion: text that ends in `M.`, where the word `M` starts with
/// an uppercase letter, holds no white space and follows white space or the
/// start of the line, asks for the members of the module `M`.
pub proof fn law_module_access_after_dot(a: Seq<char>, w: Seq<char>)
    requires
        w.len() > 0,
        unicode_uppercase(w[0]),
        forall|i: int| 0 <= i < w.len() ==> !is_white_space(#[trigger] w[i]),
        a.len() == 0 || is_white_space(a.last()),
    ensures
        module_access_of(a + w + seq!['.']) == Some(w),
{
    let s = a + w + seq!['.'];
    assert(!is_white_space('.'));
    assert(s.last() == '.');
    assert(trim_end(s) =~= s);
    assert(last_index_of(s, '.') == s.len() - 1);
    let u = s.take(s.len() - 1);
    assert(u =~= a + w);
    assert((a + w).last() == w[w.len() - 1]);
    assert(trimmed_end_len(a + w) == (a + w).len());
    assert((a + w).take((a + w).len() as int) =~= a + w);
    lemma_run_start_after(a, w);
    assert((a + w).skip(a.len() as int) =~= w);
}

/// The precedence of completion kinds: a module access (`Module.`) asks for
/// that module's members; otherwise an `import` line asks for modules;
/// otherwise a type context (the trimmed text has a `:` and no `=`, or starts
/// with `type `) asks for types, whether or not keywords would be offered
/// there; otherwise keywords where they are offered, else the local scope.
pub proof fn law_completion_precedence(t: CompletionType, line_prefix: Seq<char>, word: Seq<char>)
    requires
        is_completion_type_of(t, line_prefix, word),
    ensures
        module_access_of(line_prefix) matches Some(m) ==> (t matches CompletionType::ModuleMember { module_name }
            && module_name@ == m),
        module_access_of(line_prefix) is None && starts_with(trim_start(line_prefix), "import "@) ==> t
            == CompletionType::Import,
        module_access_of(line_prefix) is None && !starts_with(trim_start(line_prefix), "import "@) && ((
        trim(line_prefix).contains(':') && !trim(line_prefix).contains('=')) || starts_with(
            trim(line_prefix),
            "type "@,
        )) ==> t == CompletionType::Type,
        module_access_of(line_prefix) is None && !starts_with(trim_start(line_prefix), "import "@) && !((
        trim(line_prefix).contains(':') && !trim(line_prefix).contains('=')) || starts_with(
            trim(line_prefix),
            "type "@,
        )) ==> ({
            let ts = trim_start(line_prefix);
            let offered = ts.len() == 0 || word.len() == 0 || ends_with(ts, "="@) || ends_with(ts, "->"@)
                || ends_with(ts, "when"@) || ends_with(ts, "if"@) || ends_with(ts, "then"@) || ends_with(
                ts,
                "else"@,
            ) || ends_with(ts, "let"@) || ends_with(ts, "in"@);
            &&& t == CompletionType::Keyword <==> offered
            &&& t == CompletionType::LocalScope <==> !offered
        }),
{
    let ts = trim_start(line_prefix);
    if exists|i: int| 0 <= i < keyword_triggers().len() && ends_with(ts, #[trigger] keyword_triggers()[i]) {
        let i = choose|i: int| 0 <= i < keyword_triggers().len() && ends_with(ts, #[trigger] keyword_triggers()[i]);
        assert(0 <= i < 8);
    }
    assert(keyword_triggers()[0] == "="@);
    assert(keyword_triggers()[1] == "->"@);
    assert(keyword_triggers()[2] == "when"@);
    assert(keyword_triggers()[3] == "if"@);
    assert(keyword_triggers()[4] == "then"@);
    assert(keyword_triggers()[5] == "else"@);
    assert(keyword_triggers()[6] == "let"@);
    assert(keyword_triggers()[7] == "in"@);
}

fn word_start_index(s: &[char]) -> (r: usize)
    ensures
        r == word_start(s@),
{
    let mut n: usize = s.len();
    assert(s@.take(s@.len() as int) =~= s@);
    while n > 0
        invariant
            0 <= n <= s@.len(),
            word_start(s@) == word_start(s@.take(n as int)),
        decreases n,
    {
        let c = s[n - 1];
        assert(s@.take(n as int).last() == c);
        assert(s@.take(n as int).drop_last() =~= s@.take(n - 1));
        if !(char_is_alphanumeric(c) || c == '_') {
            return n;
        }
        n = n - 1;
    }
    0
}

/// The word being completed: the trailing run of letters, digits and
/// underscores of `line_prefix`.
pub fn extract_word_prefix(line_prefix: &str) -> (r: String)
    ensures
        r@ == word_prefix_of(line_prefix@),
{
    let s = chars_of(line_prefix);
    let k = word_start_index(&s);
    proof {
        lemma_word_start_bound(s@);
    }
    let w = slice_chars(&s, k, s.len());
    assert(w@ =~= word_prefix_of(line_prefix@));
    string_from_chars(&w)
}

pub proof fn lemma_word_start_bound(s: Seq<char>)
    ensures
        word_start(s) <= s.len(),
    decreases s.len(),
{
    if s.len() > 0 {
        lemma_word_start_bound(s.drop_last());
    }
}

pub proof fn lemma_run_start_bound(s: Seq<char>)
    ensures
        run_start(s) <= s.len(),
    decreases s.len(),
{
    if s.len() > 0 {
        lemma_run_start_bound(s.drop_last());
    }
}

fn last_index(s: &[char], c: char) -> (r: Option<usize>)
    ensures
        r is None <==> last_index_of(s@, c) < 0,
        r matches Some(i) ==> i == last_index_of(s@, c) && i < s@.len(),
{
    let mut n: usize = s.len();
    assert(s@.take(s@.len() as int) =~= s@);
    while n > 0
        invariant
            0 <= n <= s@.len(),
            last_index_of(s@, c) == last_index_of(s@.take(n as int), c),
        decreases n,
    {
        assert(s@.take(n as int).last() == s@[n - 1]);
        assert(s@.take(n as int).drop_last() =~= s@.take(n - 1));
        if s[n - 1] == c {
            return Some(n - 1);
        }
        n = n - 1;
    }
    None
}

fn run_start_index(s: &[char]) -> (r: usize)
    ensures
        r == run_start(s@),
{
    let mut n: usize = s.len();
    assert(s@.take(s@.len() as int) =~= s@);
    while n > 0
        invariant
            0 <= n <= s@.len(),
            run_start(s@) == run_start(s@.take(n as int)),
        decreases n,
    {
        assert(s@.take(n as int).last() == s@[n - 1]);
        assert(s@.take(n as int).drop_last() =~= s@.take(n - 1));
        if char_is_white_space(s[n - 1]) {
            return n;
        }
        n = n - 1;
    }
    0
}

fn module_access_chars(s: &[char]) -> (r: Option<Vec<char>>)
    ensures
        r is None <==> module_access_of(s@) is None,
        r matches Some(w) ==> module_access_of(s@) == Some(w@),
{
    let t = trim_end_chars(s);
    match last_index(&t, '.') {
        None => None,
        Some(d) => {
            let b = slice_chars(&t, 0, d);
            assert(b@ =~= t@.take(d as int));
            let e = trimmed_end_count(&b);
            proof {
                lemma_trimmed_end_bound(b@);
            }
            if e == 0 {
                return None;
            }
            let tt = slice_chars(&b, 0, e);
            assert(tt@ =~= b@.take(e as int));
            let st = run_start_index(&tt);
            proof {
                lemma_run_start_bound(tt@);
                // the last character of `tt` is not white space
                assert(tt@.last() == b@[e - 1]);
                assert(!is_white_space(tt@.last()));
                lemma_run_start_bound(tt@.drop_last());
            }
            assert(st < tt@.len());
            let w = slice_chars(&tt, st, tt.len());
            assert(w@ =~= tt@.skip(st as int));
            if char_is_uppercase(w[0]) {
                Some(w)
            } else {
                None
            }
        },
    }
}

/// The module name of a member access such as `Module.` or `Http.Request.fn`:
/// the last word before the last dot, when it starts with an uppercase letter.
pub fn extract_module_access(line_prefix: &str) -> (r: Option<String>)
    ensures
        r is None <==> module_access_of(line_prefix@) is None,
        r matches Some(m) ==> module_access_of(line_prefix@) == Some(m@),
{
    let s = chars_of(line_prefix);
    match module_access_chars(&s) {
        Some(w) => Some(string_from_chars(&w)),
        None => None,
    }
}

/// Whether the cursor is in a type: after a type annotation's colon (with no
/// `=` on the line) or in a `type` declaration.
pub fn is_type_context(line_prefix: &str) -> (r: bool)
    ensures
        r == type_context(line_prefix@),
{
    let s = chars_of(line_prefix);
    let t = trim_chars(&s);
    if contains_char(&t, ':') && !contains_char(&t, '=') {
        return true;
    }
    let kw = chars_of("type ");
    has_prefix(&t, &kw)
}

/// Whether keywords should be offered.
pub fn should_suggest_keywords(line_prefix: &str, word_prefix: &str) -> (r: bool)
    ensures
        r == keyword_context(line_prefix@, word_prefix@),
{
    let s = chars_of(line_prefix);
    let t = trim_start_chars(&s);
    if t.len() == 0 || word_prefix.is_empty() {
        return true;
    }
    let triggers: [&str; 8] = ["=", "->", "when", "if", "then", "else", "let", "in"];
    assert(triggers@.map_values(|w: &str| w@) =~= keyword_triggers());
    let mut i: usize = 0;
    while i < 8
        invariant
            0 <= i <= 8,
            t@ == trim_start(line_prefix@),
            triggers@.map_values(|w: &str| w@) == keyword_triggers(),
            forall|j: int| 0 <= j < i ==> !ends_with(t@, #[trigger] keyword_triggers()[j]),
        decreases 8 - i,
    {
        let p = chars_of(triggers[i]);
        if has_suffix(&t, &p) {
            assert(ends_with(t@, keyword_triggers()[i as int]));
            return true;
        }
        i = i + 1;
    }
    false
}

/// The kind of completion for `line_prefix`, `word_prefix` being the word typed.
pub fn completion_type_for(line_prefix: &str, word_prefix: &str) -> (r: CompletionType)
    ensures
        is_completion_type_of(r, line_prefix@, word_prefix@),
{
    if let Some(module_name) = extract_module_access(line_prefix) {
        return CompletionType::ModuleMember { module_name };
    }
    let s = chars_of(line_prefix);
    let t = trim_start_chars(&s);
    let imp = chars_of("import ");
    if has_prefix(&t, &imp) {
        return CompletionType::Import;
    }
    if is_type_context(line_prefix) {
        return CompletionType::Type;
    }
    if should_suggest_keywords(line_prefix, word_prefix) {
        return CompletionType::Keyword;
    }
    CompletionType::LocalScope
}

/// The kind of completion the context calls for.
pub fn determine_completion_type(context: &CompletionContext) -> (r: CompletionType)
    ensures
        is_completion_type_of(r, context.line_prefix@, context.word_prefix@),
{
    completion_type_for(context.line_prefix.as_str(), context.word_prefix.as_str())
}

/// The text of the cursor's line before the cursor: the first `character`
/// bytes of the line, or the whole line when it is shorter.
pub open spec fn line_prefix_at(line: Seq<char>, character: int) -> Seq<char> {
    if character <= byte_len(line) {
        line.take(chars_in_bytes(line, character))
    } else {
        line
    }
}

/// The cursor's offset, read as bytes into its line, falls between characters.
pub open spec fn cursor_on_boundary(content: Seq<char>, position: Position) -> bool {
    let ls = lines_of(content);
    position.line < ls.len() && position.character <= byte_len(ls[position.line as int])
        ==> is_byte_boundary(ls[position.line as int], position.character as int)
}

/// Builds the completion context for a cursor at `position` in `content`.
pub fn build_completion_context(
    position: Position,
    uri: String,
    trigger_character: Option<String>,
    content: &str,
) -> (r: Result<CompletionContext, CompletionError>)
    requires
        cursor_on_boundary(content@, position),
    ensures
        r is Err <==> position.line >= lines_of(content@).len(),
        r matches Ok(c) ==> {
            let line = lines_of(content@)[position.line as int];
            &&& c.position == position
            &&& c.uri == uri
            &&& c.content@ == content@
            &&& c.trigger_character == trigger_character
            &&& c.line_prefix@ == line_prefix_at(line, position.character as int)
            &&& c.word_prefix@ == word_prefix_of(c.line_prefix@)
        },
{
    let text = chars_of(content);
    let ls = lines(&text);
    let line_idx = position.line as usize;
    if line_idx >= ls.len() {
        return Err(CompletionError::LineOutOfRange);
    }
    let line = &ls[line_idx];
    assert(line@ == lines_of(content@)[position.line as int]);
    let prefix = match locate_byte_offset(line, position.character as usize) {
        Some(k) => {
            let p = slice_chars(line, 0, k);
            assert(p@ =~= line@.take(k as int));
            p
        },
        None => slice_chars(line, 0, line.len()),
    };
    assert(prefix@ =~= line_prefix_at(line@, position.character as int));
    let line_prefix = string_from_chars(&prefix);
    let word_prefix = extract_word_prefix(line_prefix.as_str());
    Ok(CompletionContext {
        position,
        uri,
        content: content.to_owned(),
        trigger_character,
        line_prefix,
        word_prefix,
    })
}

} // verus!

verus! {

/// Gren's keywords, in the order completion offers them.
pub open spec fn gren_keywords() -> Seq<Seq<char>> {
    seq![
        "when"@, "is"@, "if"@, "then"@, "else"@, "let"@, "in"@, "type"@, "alias"@,
        "import"@, "exposing"@, "as"@, "module"@, "where"@, "port"@, "and"@, "or"@,
    ]
}

/// Gren's built-in type names, in the order completion offers them.
pub open spec fn builtin_types() -> Seq<Seq<char>> {
    seq!["Int"@, "Float"@, "String"@, "Bool"@, "Char"@, "Array"@, "Dict"@, "Set"@, "Maybe"@, "Result"@]
}

/// The documentation shown for a keyword.
pub open spec fn keyword_documentation(k: Seq<char>) -> Seq<char> {
    if k == "when"@ {
        "Pattern matching expression"@
    } else if k == "is"@ {
        "Pattern matching arm separator"@
    } else if k == "if"@ {
        "Conditional expression"@
    } else if k == "then"@ {
        "True branch of conditional"@
    } else if k == "else"@ {
        "False branch of conditional"@
    } else if k == "let"@ {
        "Local variable binding"@
    } else if k == "in"@ {
        "Body of let expression"@
    } else if k == "type"@ {
        "Custom type declaration"@
    } else if k == "alias"@ {
        "Type alias declaration"@
    } else if k == "import"@ {
        "Import module"@
    } else if k == "exposing"@ {
        "Expose specific symbols from import"@
    } else if k == "as"@ {
        "Import alias"@
    } else if k == "module"@ {
        "Module declaration"@
    } else {
        "Gren keyword"@
    }
}

/// Gren's keywords.
pub fn get_gren_keywords() -> (r: Vec<&'static str>)
    ensures
        r@.map_values(|w: &str| w@) == gren_keywords(),
{
    let r = vec![
        "when", "is", "if", "then", "else", "let", "in", "type", "alias", "import", "exposing",
        "as", "module", "where", "port", "and", "or",
    ];
    assert(r@.map_values(|w: &str| w@) =~= gren_keywords());
    r
}

/// Gren's built-in type names.
pub fn get_builtin_types() -> (r: Vec<&'static str>)
    ensures
        r@.map_values(|w: &str| w@) == builtin_types(),
{
    let r = vec!["Int", "Float", "String", "Bool", "Char", "Array", "Dict", "Set", "Maybe", "Result"];
    assert(r@.map_values(|w: &str| w@) =~= builtin_types());
    r
}

fn same_chars(a: &[char], b: &str) -> (r: bool)
    ensures
        r == (a@ == b@),
{
    let bc = chars_of(b);
    if a.len() != bc.len() {
        return false;
    }
    let mut i: usize = 0;
    while i < a.len()
        invariant
            a@.len() == bc@.len(),
            bc@ == b@,
            0 <= i <= a@.len(),
            forall|j: int| 0 <= j < i ==> a@[j] == bc@[j],
        decreases a.len() - i,
    {
        if a[i] != bc[i] {
            assert(a@[i as int] != b@[i as int]);
            return false;
        }
        i = i + 1;
    }
    assert(a@ =~= bc@);
    true
}

/// The documentation shown for `keyword`.
pub fn get_keyword_documentation(keyword: &str) -> (r: String)
    ensures
        r@ == keyword_documentation(keyword@),
{
    let k = chars_of(keyword);
    let doc = if same_chars(&k, "when") {
        "Pattern matching expression"
    } else if same_chars(&k, "is") {
        "Pattern matching arm separator"
    } else if same_chars(&k, "if") {
        "Conditional expression"
    } else if same_chars(&k, "then") {
        "True branch of conditional"
    } else if same_chars(&k, "else") {
        "False branch of conditional"
    } else if same_chars(&k, "let") {
        "Local variable binding"
    } else if same_chars(&k, "in") {
        "Body of let expression"
    } else if same_chars(&k, "type") {
        "Custom type declaration"
    } else if same_chars(&k, "alias") {
        "Type alias declaration"
    } else if same_chars(&k, "import") {
        "Import module"
    } else if same_chars(&k, "exposing") {
        "Expose specific symbols from import"
    } else if same_chars(&k, "as") {
        "Import alias"
    } else if same_chars(&k, "module") {
        "Module declaration"
    } else {
        "Gren keyword"
    };
    doc.to_owned()
}

/// The kind of a completion item.
#[derive(Debug, Clone, Copy, PartialEq, Eq, Structural)]
pub enum CompletionItemKind {
    Text,
    Function,
    Class,
    Module,
    Variable,
    Enum,
    Keyword,
    Constant,
    Struct,
    Value,
}

/// Documentation attached to a completion item.
#[derive(Debug, Clone)]
pub enum Documentation {
    /// Plain text.
    String(String),
    /// Markdown text.
    Markdown(String),
}

/// One proposal of a completion list.
#[derive(Debug, Clone)]
pub struct CompletionItem {
    pub label: String,
    pub kind: Option<CompletionItemKind>,
    pub detail: Option<String>,
    pub documentation: Option<Documentation>,
    pub insert_text: Option<String>,
    /// Edits made along with the completion (an import, for instance).
    pub additional_text_edits: Option<Vec<crate::protocol::TextEdit>>,
    pub sort_text: Option<String>,
    pub filter_text: Option<String>,
}

/// The completion item offered for a keyword.
pub open spec fn is_keyword_item(item: CompletionItem, k: Seq<char>) -> bool {
    &&& item.label@ == k
    &&& item.kind == Some(CompletionItemKind::Keyword)
    &&& item.detail matches Some(d) && d@ == "Gren keyword"@
    &&& item.documentation matches Some(Documentation::String(doc)) && doc@
        == keyword_documentation(k)
    &&& item.insert_text matches Some(t) && t@ == k
}

/// The completion item offered for a built-in type.
pub open spec fn is_builtin_type_item(item: CompletionItem, t: Seq<char>) -> bool {
    &&& item.label@ == t
    &&& item.kind == Some(CompletionItemKind::Class)
    &&& item.detail matches Some(d) && d@ == "Built-in type"@
    &&& item.documentation is None
    &&& item.insert_text matches Some(x) && x@ == t
}

/// The words of `words` that start with `prefix`, in order.
pub open spec fn words_with_prefix(words: Seq<Seq<char>>, prefix: Seq<char>) -> Seq<Seq<char>> {
    words.filter(|w: Seq<char>| starts_with(w, prefix))
}

/// The keywords and built-in types offered for a typed word are exactly,
/// in their order, those that begin with it.
pub proof fn law_words_offered_begin_with_prefix(words: Seq<Seq<char>>, prefix: Seq<char>)
    ensures
        words_with_prefix(words, prefix) == words.filter(
            |w: Seq<char>| prefix.len() <= w.len() && w.take(prefix.len() as int) == prefix,
        ),
        forall|i: int|
            0 <= i < words_with_prefix(words, prefix).len() ==> prefix.len() <= (
            #[trigger] words_with_prefix(words, prefix)[i]).len() && words_with_prefix(words, prefix)[i].take(
                prefix.len() as int,
            ) == prefix,
        forall|i: int|
            0 <= i < words.len() && prefix.len() <= (#[trigger] words[i]).len() && words[i].take(prefix.len() as int)
                == prefix ==> words_with_prefix(words, prefix).contains(words[i]),
{
    let f = |w: Seq<char>| prefix.len() <= w.len() && w.take(prefix.len() as int) == prefix;
    let g = |w: Seq<char>| starts_with(w, prefix);
    assert(f =~= g);
    broadcast use vstd::seq_lib::group_filter_ensures;
}

/// The keyword completions for the word being typed: every keyword that
/// starts with it, in keyword order.
#[verifier::loop_isolation(false)]
pub fn complete_keywords(word_prefix: &str) -> (r: Vec<CompletionItem>)
    ensures
        r@.len() == words_with_prefix(gren_keywords(), word_prefix@).len(),
        forall|i: int|
            0 <= i < r@.len() ==> is_keyword_item(
                #[trigger] r@[i],
                words_with_prefix(gren_keywords(), word_prefix@)[i],
            ),
{
    let keywords = get_gren_keywords();
    let prefix = chars_of(word_prefix);
    let ghost kws = gren_keywords();
    let ghost pred = |w: Seq<char>| starts_with(w, word_prefix@);
    let mut items: Vec<CompletionItem> = Vec::new();
    let mut i: usize = 0;
    assert(kws.take(0) =~= Seq::<Seq<char>>::empty());
    while i < keywords.len()
        invariant
            0 <= i <= keywords@.len(),
            keywords@.map_values(|w: &str| w@) == kws,
            kws == gren_keywords(),
            prefix@ == word_prefix@,
            items@.len() == kws.take(i as int).filter(pred).len(),
            forall|j: int|
                0 <= j < items@.len() ==> is_keyword_item(
                    #[trigger] items@[j],
                    kws.take(i as int).filter(pred)[j],
                ),
        decreases keywords.len() - i,
    {
        let kw = keywords[i];
        let kc = chars_of(kw);
        assert(kws[i as int] == kw@);
        assert(kws.take(i + 1).drop_last() =~= kws.take(i as int));
        assert(kws.take(i + 1).last() == kws[i as int]);
        reveal_with_fuel(Seq::filter, 1);
        let ghost before = kws.take(i as int).filter(pred);
        if has_prefix(&kc, &prefix) {
            assert(pred(kws[i as int]));
            assert(kws.take(i + 1).filter(pred) == before.push(kws[i as int]));
            let item = CompletionItem {
                label: kw.to_owned(),
                kind: Some(CompletionItemKind::Keyword),
                detail: Some("Gren keyword".to_owned()),
                documentation: Some(Documentation::String(get_keyword_documentation(kw))),
                insert_text: Some(kw.to_owned()),
                additional_text_edits: None,
                sort_text: None,
                filter_text: None,
            };
            items.push(item);
        } else {
            assert(!pred(kws[i as int]));
            assert(kws.take(i + 1).filter(pred) == before);
        }
        i = i + 1;
    }
    assert(kws.take(keywords@.len() as int) =~= kws);
    items
}

/// The built-in type completions for the word being typed.
#[verifier::loop_isolation(false)]
pub fn complete_builtin_types(word_prefix: &str) -> (r: Vec<CompletionItem>)
    ensures
        r@.len() == words_with_prefix(builtin_types(), word_prefix@).len(),
        forall|i: int|
            0 <= i < r@.len() ==> is_builtin_type_item(
                #[trigger] r@[i],
                words_with_prefix(builtin_types(), word_prefix@)[i],
            ),
{
    let types = get_builtin_types();
    let prefix = chars_of(word_prefix);
    let ghost tys = builtin_types();
    let ghost pred = |w: Seq<char>| starts_with(w, word_prefix@);
    let mut items: Vec<CompletionItem> = Vec::new();
    let mut i: usize = 0;
    assert(tys.take(0) =~= Seq::<Seq<char>>::empty());
    while i < types.len()
        invariant
            0 <= i <= types@.len(),
            types@.map_values(|w: &str| w@) == tys,
            tys == builtin_types(),
            prefix@ == word_prefix@,
            items@.len() == tys.take(i as int).filter(pred).len(),
            forall|j: int|
                0 <= j < items@.len() ==> is_builtin_type_item(
                    #[trigger] items@[j],
                    tys.take(i as int).filter(pred)[j],
                ),
        decreases types.len() - i,
    {
        let t = types[i];
        let tc = chars_of(t);
        assert(tys[i as int] == t@);
        assert(tys.take(i + 1).drop_last() =~= tys.take(i as int));
        assert(tys.take(i + 1).last() == tys[i as int]);
        reveal_with_fuel(Seq::filter, 1);
        let ghost before = tys.take(i as int).filter(pred);
        if has_prefix(&tc, &prefix) {
            assert(pred(tys[i as int]));
            assert(tys.take(i + 1).filter(pred) == before.push(tys[i as int]));
            let item = CompletionItem {
                label: t.to_owned(),
                kind: Some(CompletionItemKind::Class),
                detail: Some("Built-in type".to_owned()),
                documentation: None,
                insert_text: Some(t.to_owned()),
                additional_text_edits: None,
                sort_text: None,
                filter_text: None,
            };
            items.push(item);
        } else {
            assert(!pred(tys[i as int]));
            assert(tys.take(i + 1).filter(pred) == before);
        }
        i = i + 1;
    }
    assert(tys.take(types@.len() as int) =~= tys);
    items
}

} // verus!

//! The naming rules a new name must meet before a symbol is renamed to it.
use vstd::prelude::*;
use vstd::string::*;
use crate::chars::{char_is_lowercase, char_is_uppercase, is_ascii_alnum, is_ascii_char, is_ascii_lower, is_ascii_upper, unicode_lowercase, unicode_uppercase};
use crate::text::chars_of;

verus! {

/// Why a proposed name is refused.
#[derive(Debug, Clone, PartialEq, Eq)]
pub enum NameError {
    /// The name is the empty string.
    Empty,
    /// The name is one of Gren's reserved words; the name is kept.
    ReservedKeyword(String),
    /// A name that starts with a lowercase letter is not `[a-z][a-zA-Z0-9_]*`.
    InvalidValueName,
    /// A name that starts with an uppercase letter is not `[A-Z][a-zA-Z0-9]*`.
    InvalidTypeName,
    /// The name starts with neither a lowercase nor an uppercase letter.
    NotALetter,
}

/// The words a symbol may not be renamed to.
pub open spec fn reserved_words() -> Seq<Seq<char>> {
    seq![
        "if"@, "then"@, "else"@, "when"@, "is"@, "let"@, "in"@, "case"@, "of"@,
        "type"@, "alias"@, "module"@, "import"@, "exposing"@, "as"@, "port"@,
        "effect"@, "where"@, "infixl"@, "infixr"@, "infix"@,
    ]
}

/// `^[a-z][a-zA-Z0-9_]*$`
pub open spec fn is_value_identifier(s: Seq<char>) -> bool {
    &&& s.len() >= 1
    &&& is_ascii_lower(s[0])
    &&& forall|i: int| 1 <= i < s.len() ==> is_ascii_alnum(#[trigger] s[i]) || s[i] == '_'
}

/// `^[A-Z][a-zA-Z0-9]*$`
pub open spec fn is_type_identifier(s: Seq<char>) -> bool {
    &&& s.len() >= 1
    &&& is_ascii_upper(s[0])
    &&& forall|i: int| 1 <= i < s.len() ==> is_ascii_alnum(#[trigger] s[i])
}

/// Which error, if any, the naming rules give for `s`.
pub open spec fn name_verdict(s: Seq<char>) -> Option<NameError> {
    if s.len() == 0 {
        Some(NameError::Empty)
    } else if reserved_words().contains(s) {
        Some(NameError::ReservedKeyword(arbitrary()))
    } else if unicode_lowercase(s[0]) {
        if is_value_identifier(s) { None } else { Some(NameError::InvalidValueName) }
    } else if unicode_uppercase(s[0]) {
        if is_type_identifier(s) { None } else { Some(NameError::InvalidTypeName) }
    } else {
        Some(NameError::NotALetter)
    }
}

/// The verdict on a name whose first character is ASCII: the same rules,
/// with the case of the first letter read as `'a'..='z'` or `'A'..='Z'`.
pub open spec fn ascii_name_verdict(s: Seq<char>) -> Option<NameError> {
    if s.len() == 0 {
        Some(NameError::Empty)
    } else if reserved_words().contains(s) {
        Some(NameError::ReservedKeyword(arbitrary()))
    } else if is_ascii_lower(s[0]) {
        if is_value_identifier(s) { None } else { Some(NameError::InvalidValueName) }
    } else if is_ascii_upper(s[0]) {
        if is_type_identifier(s) { None } else { Some(NameError::InvalidTypeName) }
    } else {
        Some(NameError::NotALetter)
    }
}

/// The naming convention of a symbol's kind, read from its current name:
/// Gren's grammar gives functions, values and variables names that start
/// with a lowercase letter, and types, constructors and modules names that
/// start with an uppercase letter.  A new name must follow the convention of
/// the symbol it is given to.
pub open spec fn convention_verdict(old: Seq<char>, new: Seq<char>) -> Option<NameError> {
    if old.len() > 0 && unicode_lowercase(old[0]) && !is_value_identifier(new) {
        Some(NameError::InvalidValueName)
    } else if old.len() > 0 && !unicode_lowercase(old[0]) && unicode_uppercase(old[0])
        && !is_type_identifier(new) {
        Some(NameError::InvalidTypeName)
    } else {
        None
    }
}

/// A name is accepted only when it is no reserved word and matches one of
/// the two patterns, `[a-z][a-zA-Z0-9_]*` or `[A-Z][a-zA-Z0-9]*`; on names
/// that start with an ASCII character, exactly then.
pub proof fn law_accepted_names_match_a_pattern(s: Seq<char>)
    ensures
        name_verdict(s) is None ==> !reserved_words().contains(s) && (is_value_identifier(s)
            || is_type_identifier(s)),
        ascii_name_verdict(s) is None <==> !reserved_words().contains(s) && (is_value_identifier(s)
            || is_type_identifier(s)),
{
}

/// A rename keeps the naming convention of the symbol's kind: when the old
/// name starts with a lowercase letter, a new name is let through only when
/// it reads `[a-z][a-zA-Z0-9_]*`; when it starts with an uppercase letter,
/// only when it reads `[A-Z][a-zA-Z0-9]*`; any other old name sets no rule.
pub proof fn law_rename_keeps_convention(old: Seq<char>, new: Seq<char>)
    ensures
        old.len() > 0 && unicode_lowercase(old[0]) ==> (convention_verdict(old, new) is None <==> is_value_identifier(
            new,
        )),
        old.len() > 0 && !unicode_lowercase(old[0]) && unicode_uppercase(old[0]) ==> (convention_verdict(
            old,
            new,
        ) is None <==> is_type_identifier(new)),
        old.len() == 0 || (!unicode_lowercase(old[0]) && !unicode_uppercase(old[0])) ==> convention_verdict(
            old,
            new,
        ) is None,
        convention_verdict(old, new) is Some ==> convention_verdict(old, new) == Some(NameError::InvalidValueName)
            || convention_verdict(old, new) == Some(NameError::InvalidTypeName),
{
}

/// The same verdict, with the name kept in a reserved-word error.
pub open spec fn same_verdict(r: Result<(), NameError>, s: Seq<char>) -> bool {
    match name_verdict(s) {
        None => r is Ok,
        Some(NameError::ReservedKeyword(_)) => r matches Err(NameError::ReservedKeyword(n))
            && n@ == s,
        Some(e) => r == Err::<(), NameError>(e),
    }
}

fn chars_equal(a: &[char], b: &[char]) -> (r: bool)
    ensures
        r == (a@ == b@),
{
    if a.len() != b.len() {
        return false;
    }
    let mut i: usize = 0;
    while i < a.len()
        invariant
            a@.len() == b@.len(),
            0 <= i <= a@.len(),
            forall|j: int| 0 <= j < i ==> a@[j] == b@[j],
        decreases a.len() - i,
    {
        if a[i] != b[i] {
            return false;
        }
        i = i + 1;
    }
    assert(a@ =~= b@);
    true
}

fn is_reserved_word(name: &[char]) -> (r: bool)
    ensures
        r == reserved_words().contains(name@),
{
    let words: [&str; 21] = [
        "if", "then", "else", "when", "is", "let", "in", "case", "of", "type", "alias",
        "module", "import", "exposing", "as", "port", "effect", "where", "infixl", "infixr",
        "infix",
    ];
    assert(words@.map_values(|w: &str| w@) =~= reserved_words());
    let mut i: usize = 0;
    while i < 21
        invariant
            0 <= i <= 21,
            words@.map_values(|w: &str| w@) == reserved_words(),
            forall|j: int| 0 <= j < i ==> reserved_words()[j] != name@,
        decreases 21 - i,
    {
        let w = chars_of(words[i]);
        if chars_equal(&w, name) {
            assert(reserved_words()[i as int] == name@);
            return true;
        }
        i = i + 1;
    }
    assert(!reserved_words().contains(name@));
    false
}

fn matches_value_identifier(s: &[char]) -> (r: bool)
    ensures
        r == is_value_identifier(s@),
{
    if s.len() == 0 || !(s[0] >= 'a' && s[0] <= 'z') {
        return false;
    }
    let mut i: usize = 1;
    while i < s.len()
        invariant
            1 <= i <= s@.len(),
            forall|j: int| 1 <= j < i ==> is_ascii_alnum(#[trigger] s@[j]) || s@[j] == '_',
        decreases s.len() - i,
    {
        let c = s[i];
        if !((c >= 'a' && c <= 'z') || (c >= 'A' && c <= 'Z') || (c >= '0' && c <= '9') || c
            == '_') {
            return false;
        }
        i = i + 1;
    }
    true
}

fn matches_type_identifier(s: &[char]) -> (r: bool)
    ensures
        r == is_type_identifier(s@),
{
    if s.len() == 0 || !(s[0] >= 'A' && s[0] <= 'Z') {
        return false;
    }
    let mut i: usize = 1;
    while i < s.len()
        invariant
            1 <= i <= s@.len(),
            forall|j: int| 1 <= j < i ==> is_ascii_alnum(#[trigger] s@[j]),
        decreases s.len() - i,
    {
        let c = s[i];
        if !((c >= 'a' && c <= 'z') || (c >= 'A' && c <= 'Z') || (c >= '0' && c <= '9')) {
            return false;
        }
        i = i + 1;
    }
    true
}

/// Checks that `new_name` may be given to a symbol: it is not empty, not a
/// reserved word, and follows the value or the type naming convention that its
/// first letter selects.
///
/// On a name whose first character is ASCII, the verdict is
/// `ascii_name_verdict`.
pub fn validate_new_name(new_name: &str) -> (r: Result<(), NameError>)
    ensures
        same_verdict(r, new_name@),
        new_name@.len() > 0 && is_ascii_char(new_name@[0]) ==> name_verdict(new_name@)
            == ascii_name_verdict(new_name@),
{
    let name = chars_of(new_name);
    if name.len() == 0 {
        return Err(NameError::Empty);
    }
    let first = name[0];
    let lower = char_is_lowercase(first);
    let upper = char_is_uppercase(first);
    if is_reserved_word(&name) {
        return Err(NameError::ReservedKeyword(new_name.to_owned()));
    }
    if lower {
        if matches_value_identifier(&name) {
            Ok(())
        } else {
            Err(NameError::InvalidValueName)
        }
    } else if upper {
        if matches_type_identifier(&name) {
            Ok(())
        } else {
            Err(NameError::InvalidTypeName)
        }
    } else {
        Err(NameError::NotALetter)
    }
}

/// Checks that `new_name` follows the naming convention of the symbol now
/// called `old_name` (see `convention_verdict`).
pub fn check_naming_convention(old_name: &str, new_name: &str) -> (r: Result<(), NameError>)
    ensures
        match convention_verdict(old_name@, new_name@) {
            None => r is Ok,
            Some(e) => r == Err::<(), NameError>(e),
        },
{
    let old = chars_of(old_name);
    let new = chars_of(new_name);
    if old.len() == 0 {
        return Ok(());
    }
    let first = old[0];
    if char_is_lowercase(first) {
        if matches_value_identifier(&new) {
            Ok(())
        } else {
            Err(NameError::InvalidValueName)
        }
    } else if char_is_uppercase(first) {
        if matches_type_identifier(&new) {
            Ok(())
        } else {
            Err(NameError::InvalidTypeName)
        }
    } else {
        Ok(())
    }
}

impl NameError {
    /// The message shown to the user for this error.
    pub fn message(&self) -> (r: String)
        ensures
            self is Empty ==> r@ == "Name cannot be empty"@,
            self matches NameError::ReservedKeyword(n) ==> r@ == "'"@ + n@
                + "' is a reserved keyword"@,
            self is InvalidValueName ==> r@
                == "Function/variable names must start with lowercase letter and contain only letters, numbers, and underscores"@,
            self is InvalidTypeName ==> r@
                == "Type/constructor names must start with uppercase letter and contain only letters and numbers"@,
            self is NotALetter ==> r@ == "Names must start with a letter"@,
    {
        match self {
            NameError::Empty => "Name cannot be empty".to_owned(),
            NameError::ReservedKeyword(n) => {
                let mut m = "'".to_owned();
                m.append(n.as_str());
                m.append("' is a reserved keyword");
                m
            },
            NameError::InvalidValueName => {
                "Function/variable names must start with lowercase letter and contain only letters, numbers, and underscores".to_owned()
            },
            NameError::InvalidTypeName => {
                "Type/constructor names must start with uppercase letter and contain only letters and numbers".to_owned()
            },
            NameError::NotALetter => "Names must start with a letter".to_owned(),
        }
    }
}

} // verus!

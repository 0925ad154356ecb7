//! Which local binding a name refers to: looking outwards from the place of
//! use, the innermost enclosing `let`, function declaration or `when` branch
//! that binds the name decides.
use vstd::prelude::*;
use crate::ordering::str_equal;
use crate::protocol::Range;

verus! {

/// The kind of a syntax node that may bind names.
#[derive(Debug, Clone, Copy, PartialEq, Eq, Structural)]
pub enum ScopeKind {
    /// A `let ... in ...` expression: its declarations bind their names.
    LetIn,
    /// A function or value declaration: it binds its own name and its
    /// parameters.
    ValueDeclaration,
    /// A branch of a `when` expression: its pattern binds names.
    WhenBranch,
    /// Any other node: it binds nothing.
    Other,
}

/// The kind of a place in a declaration's left-hand side.
#[derive(Debug, Clone, Copy, PartialEq, Eq, Structural)]
pub enum SiteKind {
    /// A lowercase identifier.
    Name,
    /// A pattern, which may hold lowercase identifiers.
    Pattern,
    /// Anything else.
    Other,
}

/// A lowercase identifier inside a pattern: its text and where it is.
#[derive(Debug, Clone)]
pub struct NamedRange {
    pub text: String,
    pub range: Range,
}

/// A place that may bind a name: a child of a declaration's left-hand side,
/// or a `when` branch's pattern.  `names` are the lowercase identifiers of a
/// pattern (the pattern's own node first, then its descendants, depth first,
/// in document order).
#[derive(Debug, Clone)]
pub struct BindingSite {
    pub kind: SiteKind,
    pub text: String,
    pub range: Range,
    pub names: Vec<NamedRange>,
}

/// An enclosing node: its kind and its binding places, in document order.
/// For a `let`, the children of each declaration's left-hand side; for a
/// declaration, the children of its left-hand side; for a `when` branch,
/// its pattern.
#[derive(Debug, Clone)]
pub struct ScopeFacts {
    pub kind: ScopeKind,
    pub sites: Vec<BindingSite>,
}

/// The first identifier among `names` whose text is `name`.
pub open spec fn first_named(names: Seq<NamedRange>, name: Seq<char>) -> Option<Range>
    decreases names.len(),
{
    if names.len() == 0 {
        None
    } else {
        match first_named(names.drop_last(), name) {
            Some(r) => Some(r),
            None => if names.last().text@ == name {
                Some(names.last().range)
            } else {
                None
            },
        }
    }
}

/// Where a place of a node of `kind` binds `name`, if it does.  In a `let`,
/// an identifier of that text; in a declaration, an identifier or a pattern
/// of that text, or else an identifier of that text inside a pattern; in a
/// `when` branch, an identifier of that text inside the pattern.
pub open spec fn site_binding(kind: ScopeKind, s: BindingSite, name: Seq<char>) -> Option<Range> {
    match kind {
        ScopeKind::LetIn => if s.kind == SiteKind::Name && s.text@ == name {
            Some(s.range)
        } else {
            None
        },
        ScopeKind::ValueDeclaration => if (s.kind == SiteKind::Name || s.kind == SiteKind::Pattern)
            && s.text@ == name {
            Some(s.range)
        } else if s.kind == SiteKind::Pattern {
            first_named(s.names@, name)
        } else {
            None
        },
        ScopeKind::WhenBranch => if s.kind == SiteKind::Pattern {
            first_named(s.names@, name)
        } else {
            None
        },
        ScopeKind::Other => None,
    }
}

/// The first place of a node of `kind` that binds `name`.
pub open spec fn scope_binding(kind: ScopeKind, sites: Seq<BindingSite>, name: Seq<char>) -> Option<Range>
    decreases sites.len(),
{
    if sites.len() == 0 {
        None
    } else {
        match scope_binding(kind, sites.drop_last(), name) {
            Some(r) => Some(r),
            None => site_binding(kind, sites.last(), name),
        }
    }
}

/// The binding of `name` in the innermost of the enclosing nodes (listed
/// innermost first) that binds it.
pub open spec fn local_binding_of(scopes: Seq<ScopeFacts>, name: Seq<char>) -> Option<Range>
    decreases scopes.len(),
{
    if scopes.len() == 0 {
        None
    } else {
        match local_binding_of(scopes.drop_last(), name) {
            Some(r) => Some(r),
            None => scope_binding(scopes.last().kind, scopes.last().sites@, name),
        }
    }
}

fn find_named(names: &Vec<NamedRange>, name: &str) -> (r: Option<Range>)
    ensures
        r == first_named(names@, name@),
{
    let mut i: usize = 0;
    while i < names.len()
        invariant
            0 <= i <= names@.len(),
            first_named(names@.take(i as int), name@) is None,
        decreases names.len() - i,
    {
        assert(names@.take(i + 1).drop_last() =~= names@.take(i as int));
        if str_equal(names[i].text.as_str(), name) {
            let r = names[i].range;
            proof {
                lemma_first_named_settled(names@, name@, i + 1);
            }
            return Some(r);
        }
        i = i + 1;
    }
    assert(names@.take(names@.len() as int) =~= names@);
    None
}

proof fn lemma_first_named_settled(names: Seq<NamedRange>, name: Seq<char>, i: int)
    requires
        0 <= i <= names.len(),
        first_named(names.take(i), name) is Some,
    ensures
        first_named(names, name) == first_named(names.take(i), name),
    decreases names.len() - i,
{
    if i < names.len() {
        assert(names.take(i + 1).drop_last() =~= names.take(i));
        lemma_first_named_settled(names, name, i + 1);
    } else {
        assert(names.take(i) =~= names);
    }
}

fn site_binds(kind: ScopeKind, s: &BindingSite, name: &str) -> (r: Option<Range>)
    ensures
        r == site_binding(kind, *s, name@),
{
    match kind {
        ScopeKind::LetIn => if s.kind == SiteKind::Name && str_equal(s.text.as_str(), name) {
            Some(s.range)
        } else {
            None
        },
        ScopeKind::ValueDeclaration => if (s.kind == SiteKind::Name || s.kind == SiteKind::Pattern)
            && str_equal(s.text.as_str(), name) {
            Some(s.range)
        } else if s.kind == SiteKind::Pattern {
            find_named(&s.names, name)
        } else {
            None
        },
        ScopeKind::WhenBranch => if s.kind == SiteKind::Pattern {
            find_named(&s.names, name)
        } else {
            None
        },
        ScopeKind::Other => None,
    }
}

proof fn lemma_scope_binding_settled(kind: ScopeKind, sites: Seq<BindingSite>, name: Seq<char>, i: int)
    requires
        0 <= i <= sites.len(),
        scope_binding(kind, sites.take(i), name) is Some,
    ensures
        scope_binding(kind, sites, name) == scope_binding(kind, sites.take(i), name),
    decreases sites.len() - i,
{
    if i < sites.len() {
        assert(sites.take(i + 1).drop_last() =~= sites.take(i));
        lemma_scope_binding_settled(kind, sites, name, i + 1);
    } else {
        assert(sites.take(i) =~= sites);
    }
}

fn scope_binds(scope: &ScopeFacts, name: &str) -> (r: Option<Range>)
    ensures
        r == scope_binding(scope.kind, scope.sites@, name@),
{
    let mut i: usize = 0;
    while i < scope.sites.len()
        invariant
            0 <= i <= scope.sites@.len(),
            scope_binding(scope.kind, scope.sites@.take(i as int), name@) is None,
        decreases scope.sites.len() - i,
    {
        assert(scope.sites@.take(i + 1).drop_last() =~= scope.sites@.take(i as int));
        let found = site_binds(scope.kind, &scope.sites[i], name);
        if found.is_some() {
            proof {
                lemma_scope_binding_settled(scope.kind, scope.sites@, name@, i + 1);
            }
            return found;
        }
        i = i + 1;
    }
    assert(scope.sites@.take(scope.sites@.len() as int) =~= scope.sites@);
    None
}

proof fn lemma_local_binding_settled(scopes: Seq<ScopeFacts>, name: Seq<char>, i: int)
    requires
        0 <= i <= scopes.len(),
        local_binding_of(scopes.take(i), name) is Some,
    ensures
        local_binding_of(scopes, name) == local_binding_of(scopes.take(i), name),
    decreases scopes.len() - i,
{
    if i < scopes.len() {
        assert(scopes.take(i + 1).drop_last() =~= scopes.take(i));
        lemma_local_binding_settled(scopes, name, i + 1);
    } else {
        assert(scopes.take(i) =~= scopes);
    }
}

/// Where `name` is bound locally, looking outwards through the enclosing
/// nodes `scopes` (innermost first): the binding in the innermost node that
/// binds it, or `None` when none does.
pub fn local_definition(scopes: &Vec<ScopeFacts>, name: &str) -> (r: Option<Range>)
    ensures
        r == local_binding_of(scopes@, name@),
{
    let mut i: usize = 0;
    while i < scopes.len()
        invariant
            0 <= i <= scopes@.len(),
            local_binding_of(scopes@.take(i as int), name@) is None,
        decreases scopes.len() - i,
    {
        assert(scopes@.take(i + 1).drop_last() =~= scopes@.take(i as int));
        let found = scope_binds(&scopes[i], name);
        if found.is_some() {
            proof {
                lemma_local_binding_settled(scopes@, name@, i + 1);
            }
            return found;
        }
        i = i + 1;
    }
    assert(scopes@.take(scopes@.len() as int) =~= scopes@);
    None
}

/// An inner binding hides an outer one: when an enclosing node binds the
/// name, nodes further out are not looked at.
pub proof fn law_inner_binding_shadows(inner: Seq<ScopeFacts>, outer: Seq<ScopeFacts>, name: Seq<char>)
    requires
        local_binding_of(inner, name) is Some,
    ensures
        local_binding_of(inner + outer, name) == local_binding_of(inner, name),
{
    assert((inner + outer).take(inner.len() as int) =~= inner);
    lemma_local_binding_settled(inner + outer, name, inner.len() as int);
}

/// Nodes that bind nothing of the name can be passed over: the binding is
/// the one found further out.
pub proof fn law_unbinding_scopes_pass_over(inner: Seq<ScopeFacts>, outer: Seq<ScopeFacts>, name: Seq<char>)
    requires
        local_binding_of(inner, name) is None,
    ensures
        local_binding_of(inner + outer, name) == local_binding_of(outer, name),
    decreases outer.len(),
{
    if outer.len() == 0 {
        assert(inner + outer =~= inner);
    } else {
        law_unbinding_scopes_pass_over(inner, outer.drop_last(), name);
        assert((inner + outer).drop_last() =~= inner + outer.drop_last());
    }
}

} // verus!

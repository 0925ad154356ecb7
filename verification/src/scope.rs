//! The local scope at a position: the variables bound by the enclosing
//! functions, let expressions and `when` branches, nearest scope first.
use vstd::prelude::*;
use crate::ordering::{key_agrees, lemma_stable_sorted_keys, stable_sort, stable_sorted, Ranked};
use crate::protocol::Range;

verus! {

/// How a local variable is bound.
#[derive(Debug, Clone, Copy, PartialEq, Eq, Structural)]
pub enum LocalVariableKind {
    /// A function parameter.
    Parameter,
    /// A let binding.
    LetBinding,
    /// A variable of a `when` pattern.
    PatternBinding,
    /// A loop variable.
    LoopVariable,
}

/// A local variable or binding.
#[derive(Debug, Clone)]
pub struct LocalVariable {
    pub name: String,
    pub type_hint: Option<String>,
    /// Where the variable is bound.
    pub definition_range: Range,
    /// How many scopes out from the position it is bound.
    pub scope_depth: usize,
    pub kind: LocalVariableKind,
}

/// The scope at a position.
#[derive(Debug, Clone)]
pub struct ScopeInfo {
    /// Pattern variables.
    pub local_variables: Vec<LocalVariable>,
    pub parameters: Vec<LocalVariable>,
    pub let_bindings: Vec<LocalVariable>,
    /// How many scopes enclose the position.
    pub scope_depth: usize,
}

impl Ranked for LocalVariable {
    /// Nearer scopes first.
    open spec fn precedes(&self, other: &Self) -> bool {
        self.scope_depth < other.scope_depth
    }

    fn goes_before(&self, other: &Self) -> (r: bool) {
        self.scope_depth < other.scope_depth
    }
}

/// What a syntax node binds, at a depth: the parameters of a function, the
/// names of a let expression, the identifiers of a `when` pattern.
#[derive(Debug, Clone)]
pub struct ScopeLevel {
    pub parameters: Vec<LocalVariable>,
    pub let_bindings: Vec<LocalVariable>,
    pub pattern_variables: Vec<LocalVariable>,
}

/// The bindings of all levels, innermost level first, each level's in order.
pub open spec fn gathered(levels: Seq<ScopeLevel>, pick: spec_fn(ScopeLevel) -> Seq<LocalVariable>) -> Seq<
    LocalVariable,
>
    decreases levels.len(),
{
    if levels.len() == 0 {
        Seq::empty()
    } else {
        gathered(levels.drop_last(), pick) + pick(levels.last())
    }
}

pub open spec fn pick_patterns(l: ScopeLevel) -> Seq<LocalVariable> {
    l.pattern_variables@
}

pub open spec fn pick_parameters(l: ScopeLevel) -> Seq<LocalVariable> {
    l.parameters@
}

pub open spec fn pick_lets(l: ScopeLevel) -> Seq<LocalVariable> {
    l.let_bindings@
}

fn gather(levels: &mut Vec<ScopeLevel>, which: u8) -> (r: Vec<LocalVariable>)
    requires
        which < 3,
    ensures
        r@ == gathered(
            old(levels)@,
            if which == 0 {
                |l: ScopeLevel| pick_patterns(l)
            } else if which == 1 {
                |l: ScopeLevel| pick_parameters(l)
            } else {
                |l: ScopeLevel| pick_lets(l)
            },
        ),
        final(levels)@.len() == old(levels)@.len(),
        forall|i: int|
            0 <= i < final(levels)@.len() ==> {
                &&& which != 0 ==> (#[trigger] final(levels)@[i]).pattern_variables == old(levels)@[i].pattern_variables
                &&& which != 1 ==> final(levels)@[i].parameters == old(levels)@[i].parameters
                &&& which != 2 ==> final(levels)@[i].let_bindings == old(levels)@[i].let_bindings
            },
{
    let ghost pick = if which == 0 {
        |l: ScopeLevel| pick_patterns(l)
    } else if which == 1 {
        |l: ScopeLevel| pick_parameters(l)
    } else {
        |l: ScopeLevel| pick_lets(l)
    };
    let ghost orig = levels@;
    let mut out: Vec<LocalVariable> = Vec::new();
    let mut i: usize = 0;
    assert(orig.take(0) =~= Seq::<ScopeLevel>::empty());
    while i < levels.len()
        invariant
            0 <= i <= levels@.len(),
            levels@.len() == orig.len(),
            which < 3,
            pick == (if which == 0 {
                |l: ScopeLevel| pick_patterns(l)
            } else if which == 1 {
                |l: ScopeLevel| pick_parameters(l)
            } else {
                |l: ScopeLevel| pick_lets(l)
            }),
            out@ == gathered(orig.take(i as int), pick),
            forall|j: int| i <= j < levels@.len() ==> #[trigger] levels@[j] == orig[j],
            forall|j: int|
                0 <= j < levels@.len() ==> {
                    &&& which != 0 ==> (#[trigger] levels@[j]).pattern_variables == orig[j].pattern_variables
                    &&& which != 1 ==> levels@[j].parameters == orig[j].parameters
                    &&& which != 2 ==> levels@[j].let_bindings == orig[j].let_bindings
                },
        decreases levels.len() - i,
    {
        let mut level = levels.remove(i);
        let ghost lv = level;
        assert(lv == orig[i as int]);
        let mut taken: Vec<LocalVariable> = Vec::new();
        if which == 0 {
            std::mem::swap(&mut taken, &mut level.pattern_variables);
        } else if which == 1 {
            std::mem::swap(&mut taken, &mut level.parameters);
        } else {
            std::mem::swap(&mut taken, &mut level.let_bindings);
        }
        assert(taken@ == pick(lv));
        let ghost before = out@;
        out.append(&mut taken);
        assert(orig.take(i + 1).drop_last() =~= orig.take(i as int));
        levels.insert(i, level);
        i = i + 1;
    }
    assert(orig.take(orig.len() as int) =~= orig);
    out
}

/// Bindings come nearest scope first: after sorting, no binding is listed
/// before one of a smaller depth.
pub proof fn law_nearest_scope_first(vs: Seq<LocalVariable>)
    ensures
        forall|i: int, j: int|
            0 <= i < j < stable_sorted(vs).len() ==> (#[trigger] stable_sorted(vs)[i]).scope_depth <= (
            #[trigger] stable_sorted(vs)[j]).scope_depth,
{
    let key = |v: LocalVariable| -(v.scope_depth as int);
    assert forall|x: LocalVariable, y: LocalVariable| #[trigger] x.precedes(&y) implies key(x) >= key(y) by {}
    assert forall|x: LocalVariable, y: LocalVariable| key(x) > key(y) implies #[trigger] x.precedes(&y) by {}
    assert(key_agrees(key));
    lemma_stable_sorted_keys(vs, key);
    let r = stable_sorted(vs);
    assert forall|i: int, j: int| 0 <= i < j < r.len() implies (#[trigger] r[i]).scope_depth <= (#[trigger] r[j]).scope_depth by {
        assert(key(r[i]) >= key(r[j]));
    }
}

/// The scope of a position from what its enclosing nodes bind, innermost
/// first: each kind of binding gathered over the levels, then sorted stably by
/// depth; the depth is the number of levels above the innermost one.
pub fn assemble_scope(levels: Vec<ScopeLevel>) -> (r: ScopeInfo)
    requires
        levels@.len() >= 1,
    ensures
        r.local_variables@ == stable_sorted(gathered(levels@, |l: ScopeLevel| pick_patterns(l))),
        r.parameters@ == stable_sorted(gathered(levels@, |l: ScopeLevel| pick_parameters(l))),
        r.let_bindings@ == stable_sorted(gathered(levels@, |l: ScopeLevel| pick_lets(l))),
        r.scope_depth == levels@.len() - 1,
{
    let mut levels = levels;
    let ghost orig = levels@;
    let depth = levels.len() - 1;
    let patterns = gather(&mut levels, 0);
    let ghost after0 = levels@;
    assert(gathered(after0, |l: ScopeLevel| pick_parameters(l)) == gathered(orig, |l: ScopeLevel| pick_parameters(l))) by {
        lemma_gathered_same(after0, orig, |l: ScopeLevel| pick_parameters(l));
    }
    assert(gathered(after0, |l: ScopeLevel| pick_lets(l)) == gathered(orig, |l: ScopeLevel| pick_lets(l))) by {
        lemma_gathered_same(after0, orig, |l: ScopeLevel| pick_lets(l));
    }
    let parameters = gather(&mut levels, 1);
    let ghost after1 = levels@;
    assert(gathered(after1, |l: ScopeLevel| pick_lets(l)) == gathered(after0, |l: ScopeLevel| pick_lets(l))) by {
        lemma_gathered_same(after1, after0, |l: ScopeLevel| pick_lets(l));
    }
    let lets = gather(&mut levels, 2);
    ScopeInfo {
        local_variables: stable_sort(patterns),
        parameters: stable_sort(parameters),
        let_bindings: stable_sort(lets),
        scope_depth: depth,
    }
}

proof fn lemma_gathered_same(a: Seq<ScopeLevel>, b: Seq<ScopeLevel>, pick: spec_fn(ScopeLevel) -> Seq<LocalVariable>)
    requires
        a.len() == b.len(),
        forall|i: int| 0 <= i < a.len() ==> pick(#[trigger] a[i]) == pick(b[i]),
    ensures
        gathered(a, pick) == gathered(b, pick),
    decreases a.len(),
{
    if a.len() > 0 {
        assert forall|i: int| 0 <= i < a.drop_last().len() implies pick(#[trigger] a.drop_last()[i]) == pick(b.drop_last()[i]) by {
            assert(a.drop_last()[i] == a[i]);
            assert(b.drop_last()[i] == b[i]);
        }
        lemma_gathered_same(a.drop_last(), b.drop_last(), pick);
    }
}

/// The part an enclosing node plays in the scope: a declaration binds its
/// parameters, a `let` its names, a `when` branch its pattern variables.
#[derive(Debug, Clone, Copy, PartialEq, Eq, Structural)]
pub enum LevelRole {
    Declaration,
    LetIn,
    WhenBranch,
    Other,
}

/// An enclosing node: its part and the names it binds (with where they are
/// bound), in document order.
#[derive(Debug, Clone)]
pub struct LevelNames {
    pub role: LevelRole,
    pub names: Vec<crate::local_scope::NamedRange>,
}

/// `v` is the variable of the name `n`, bound at `depth` in the way `kind`.
pub open spec fn is_variable_of(v: LocalVariable, n: crate::local_scope::NamedRange, depth: int, kind: LocalVariableKind) -> bool {
    &&& v.name@ == n.text@
    &&& v.type_hint is None
    &&& v.definition_range == n.range
    &&& v.scope_depth == depth
    &&& v.kind == kind
}

/// `vs` are the variables of the names, bound at `depth` in the way `kind`.
pub open spec fn are_variables_of(vs: Seq<LocalVariable>, ns: Seq<crate::local_scope::NamedRange>, depth: int, kind: LocalVariableKind) -> bool {
    &&& vs.len() == ns.len()
    &&& forall|k: int| 0 <= k < vs.len() ==> is_variable_of(#[trigger] vs[k], ns[k], depth, kind)
}

/// The level a node at `depth` makes: its names become parameters, let
/// bindings or pattern variables, as its part says; the other two kinds are
/// empty.
pub open spec fn is_level_of(l: ScopeLevel, n: LevelNames, depth: int) -> bool {
    &&& are_variables_of(l.parameters@, if n.role == LevelRole::Declaration { n.names@ } else { Seq::empty() }, depth, LocalVariableKind::Parameter)
    &&& are_variables_of(l.let_bindings@, if n.role == LevelRole::LetIn { n.names@ } else { Seq::empty() }, depth, LocalVariableKind::LetBinding)
    &&& are_variables_of(l.pattern_variables@, if n.role == LevelRole::WhenBranch { n.names@ } else { Seq::empty() }, depth, LocalVariableKind::PatternBinding)
}

fn variables_of(ns: &Vec<crate::local_scope::NamedRange>, depth: usize, kind: LocalVariableKind) -> (r: Vec<LocalVariable>)
    ensures
        are_variables_of(r@, ns@, depth as int, kind),
{
    let mut r: Vec<LocalVariable> = Vec::new();
    let mut k: usize = 0;
    while k < ns.len()
        invariant
            0 <= k <= ns@.len(),
            r@.len() == k,
            forall|j: int| 0 <= j < k ==> is_variable_of(#[trigger] r@[j], ns@[j], depth as int, kind),
        decreases ns.len() - k,
    {
        let v = LocalVariable {
            name: ns[k].text.clone(),
            type_hint: None,
            definition_range: ns[k].range,
            scope_depth: depth,
            kind,
        };
        r.push(v);
        k = k + 1;
    }
    r
}

/// The levels of the enclosing nodes, innermost first: the node at place `i`
/// binds its names at depth `i`.
pub fn scope_levels_of(nodes: &Vec<LevelNames>) -> (r: Vec<ScopeLevel>)
    ensures
        r@.len() == nodes@.len(),
        forall|i: int| 0 <= i < r@.len() ==> is_level_of(#[trigger] r@[i], nodes@[i], i),
{
    let mut r: Vec<ScopeLevel> = Vec::new();
    let mut i: usize = 0;
    while i < nodes.len()
        invariant
            0 <= i <= nodes@.len(),
            r@.len() == i,
            forall|j: int| 0 <= j < i ==> is_level_of(#[trigger] r@[j], nodes@[j], j),
        decreases nodes.len() - i,
    {
        let n = &nodes[i];
        let empty: Vec<crate::local_scope::NamedRange> = Vec::new();
        let params = if n.role == LevelRole::Declaration { &n.names } else { &empty };
        let lets = if n.role == LevelRole::LetIn { &n.names } else { &empty };
        let pats = if n.role == LevelRole::WhenBranch { &n.names } else { &empty };
        let level = ScopeLevel {
            parameters: variables_of(params, i, LocalVariableKind::Parameter),
            let_bindings: variables_of(lets, i, LocalVariableKind::LetBinding),
            pattern_variables: variables_of(pats, i, LocalVariableKind::PatternBinding),
        };
        proof {
            assert(empty@ =~= Seq::<crate::local_scope::NamedRange>::empty());
        }
        r.push(level);
        i = i + 1;
    }
    r
}

} // verus!

//! Lexicographic order of text and a stable sort for ranked lists.
use vstd::prelude::*;
use crate::text::chars_of;

verus! {

/// `a` comes strictly before `b` in lexicographic order of code points, the
/// order of std's `str` comparison.
pub open spec fn lex_lt(a: Seq<char>, b: Seq<char>) -> bool
    decreases a.len(),
{
    if a.len() == 0 {
        b.len() > 0
    } else if b.len() == 0 {
        false
    } else if a[0] != b[0] {
        (a[0] as u32) < (b[0] as u32)
    } else {
        lex_lt(a.drop_first(), b.drop_first())
    }
}

/// Lexicographic comparison of two character sequences.
pub fn chars_less(a: &[char], b: &[char]) -> (r: bool)
    ensures
        r == lex_lt(a@, b@),
{
    let mut i: usize = 0;
    assert(a@.skip(0) =~= a@);
    assert(b@.skip(0) =~= b@);
    while i < a.len() && i < b.len() && a[i] == b[i]
        invariant
            0 <= i <= a@.len(),
            i <= b@.len(),
            lex_lt(a@, b@) == lex_lt(a@.skip(i as int), b@.skip(i as int)),
        decreases a.len() - i,
    {
        assert(a@.skip(i as int).drop_first() =~= a@.skip(i + 1));
        assert(b@.skip(i as int).drop_first() =~= b@.skip(i + 1));
        i = i + 1;
    }
    if i == a.len() {
        i < b.len()
    } else if i == b.len() {
        false
    } else {
        assert(a@.skip(i as int)[0] == a@[i as int]);
        assert(b@.skip(i as int)[0] == b@[i as int]);
        (a[i] as u32) < (b[i] as u32)
    }
}

/// Lexicographic comparison of two strings.
pub fn str_less(a: &str, b: &str) -> (r: bool)
    ensures
        r == lex_lt(a@, b@),
{
    let x = chars_of(a);
    let y = chars_of(b);
    chars_less(&x, &y)
}

/// Equality of two strings' characters.
pub fn str_equal(a: &str, b: &str) -> (r: bool)
    ensures
        r == (a@ == b@),
{
    let x = chars_of(a);
    let y = chars_of(b);
    if x.len() != y.len() {
        return false;
    }
    let mut i: usize = 0;
    while i < x.len()
        invariant
            x@ == a@,
            y@ == b@,
            x@.len() == y@.len(),
            0 <= i <= x@.len(),
            forall|j: int| 0 <= j < i ==> x@[j] == y@[j],
        decreases x.len() - i,
    {
        if x[i] != y[i] {
            assert(a@[i as int] != b@[i as int]);
            return false;
        }
        i = i + 1;
    }
    assert(x@ =~= y@);
    true
}

/// Values that a list can be ranked by: `precedes` says that a value must come
/// before another.
pub trait Ranked: Sized {
    spec fn precedes(&self, other: &Self) -> bool;

    fn goes_before(&self, other: &Self) -> (r: bool)
        ensures
            r == self.precedes(other),
    ;
}

impl Ranked for String {
    open spec fn precedes(&self, other: &Self) -> bool {
        lex_lt(self@, other@)
    }

    fn goes_before(&self, other: &Self) -> (r: bool) {
        str_less(self.as_str(), other.as_str())
    }
}

/// `x` inserted into `s` after every element that it does not precede,
/// scanning from the back: a stable insertion.
pub open spec fn insert_ranked<T: Ranked>(s: Seq<T>, x: T) -> Seq<T>
    decreases s.len(),
{
    if s.len() == 0 {
        seq![x]
    } else if x.precedes(&s.last()) {
        insert_ranked(s.drop_last(), x).push(s.last())
    } else {
        s.push(x)
    }
}

/// The stable sort of `s` by `precedes`: elements are inserted in order, each
/// after the elements before it that it does not precede.
pub open spec fn stable_sorted<T: Ranked>(s: Seq<T>) -> Seq<T>
    decreases s.len(),
{
    if s.len() == 0 {
        s
    } else {
        insert_ranked(stable_sorted(s.drop_last()), s.last())
    }
}

pub proof fn lemma_insert_ranked_at<T: Ranked>(s: Seq<T>, x: T, p: int)
    requires
        0 <= p <= s.len(),
        p > 0 ==> !x.precedes(&s[p - 1]),
        forall|j: int| p <= j < s.len() ==> x.precedes(&#[trigger] s[j]),
    ensures
        insert_ranked(s, x) =~= s.take(p).push(x) + s.skip(p),
    decreases s.len(),
{
    if s.len() == 0 {
        assert(s.take(p).push(x) + s.skip(p) =~= seq![x]);
    } else if p == s.len() {
        assert(!x.precedes(&s.last()));
        assert(s.take(p) =~= s);
        assert(s.skip(p) =~= Seq::<T>::empty());
    } else {
        assert(x.precedes(&s[s.len() - 1]));
        let t = s.drop_last();
        assert forall|j: int| p <= j < t.len() implies x.precedes(&#[trigger] t[j]) by {
            assert(t[j] == s[j]);
        }
        lemma_insert_ranked_at(t, x, p);
        assert(t.take(p) =~= s.take(p));
        assert(t.skip(p).push(s.last()) =~= s.skip(p));
    }
}

/// `key` agrees with `precedes`: an element that precedes another has at
/// least its key, and one with a greater key precedes.
pub open spec fn key_agrees<T: Ranked>(key: spec_fn(T) -> int) -> bool {
    &&& forall|x: T, y: T| #[trigger] x.precedes(&y) ==> key(x) >= key(y)
    &&& forall|x: T, y: T| key(x) > key(y) ==> #[trigger] x.precedes(&y)
}

/// The keys of `s` never increase from one element to a later one.
pub open spec fn keys_descend<T>(s: Seq<T>, key: spec_fn(T) -> int) -> bool {
    forall|i: int, j: int| 0 <= i < j < s.len() ==> key(#[trigger] s[i]) >= key(#[trigger] s[j])
}

proof fn lemma_insert_ranked_keys<T: Ranked>(s: Seq<T>, x: T, key: spec_fn(T) -> int)
    requires
        key_agrees(key),
        keys_descend(s, key),
    ensures
        keys_descend(insert_ranked(s, x), key),
    decreases s.len(),
{
    if s.len() > 0 {
        let r = insert_ranked(s, x);
        if x.precedes(&s.last()) {
            let t = s.drop_last();
            assert(keys_descend(t, key)) by {
                assert forall|i: int, j: int| 0 <= i < j < t.len() implies key(#[trigger] t[i]) >= key(
                #[trigger] t[j]) by {
                    assert(t[i] == s[i] && t[j] == s[j]);
                }
            }
            lemma_insert_ranked_keys(t, x, key);
            lemma_insert_ranked_elements(t, x);
            let u = insert_ranked(t, x);
            assert(r == u.push(s.last()));
            assert forall|i: int| 0 <= i < u.len() implies key(#[trigger] u[i]) >= key(s.last()) by {
                if u[i] != x {
                    let k = choose|k: int| 0 <= k < t.len() && u[i] == #[trigger] t[k];
                    assert(s[k] == t[k]);
                    assert(key(s[k]) >= key(s[s.len() - 1]));
                }
            }
            assert forall|i: int, j: int| 0 <= i < j < r.len() implies key(#[trigger] r[i]) >= key(#[trigger] r[j]) by {
                assert(r[i] == u[i]);
                if j < u.len() {
                    assert(r[j] == u[j]);
                } else {
                    assert(r[j] == s.last());
                }
            }
        } else {
            assert(r == s.push(x));
            assert forall|i: int, j: int| 0 <= i < j < r.len() implies key(#[trigger] r[i]) >= key(#[trigger] r[j]) by {
                assert(r[i] == s[i]);
                if j < s.len() {
                    assert(r[j] == s[j]);
                } else {
                    assert(r[j] == x);
                    assert(key(s[i]) >= key(s[s.len() - 1]) || i == s.len() - 1);
                }
            }
        }
    }
}

/// A stable sort by `precedes` orders the elements by any key that agrees
/// with `precedes`, greatest key first.
pub proof fn lemma_stable_sorted_keys<T: Ranked>(s: Seq<T>, key: spec_fn(T) -> int)
    requires
        key_agrees(key),
    ensures
        keys_descend(stable_sorted(s), key),
    decreases s.len(),
{
    if s.len() > 0 {
        lemma_stable_sorted_keys(s.drop_last(), key);
        lemma_insert_ranked_keys(stable_sorted(s.drop_last()), s.last(), key);
    }
}

/// No sequence comes before itself, and of two sequences at most one comes
/// before the other.
pub proof fn lemma_lex_asymmetric(a: Seq<char>, b: Seq<char>)
    ensures
        lex_lt(a, b) ==> !lex_lt(b, a),
        !lex_lt(a, a),
    decreases a.len(),
{
    if a.len() > 0 && b.len() > 0 && a[0] == b[0] {
        lemma_lex_asymmetric(a.drop_first(), b.drop_first());
    }
    if a.len() > 0 {
        lemma_lex_asymmetric(a.drop_first(), a.drop_first());
    }
}

/// When `a` comes before `c`, any `b` comes after `a` or before `c`.
pub proof fn lemma_lex_split(a: Seq<char>, b: Seq<char>, c: Seq<char>)
    ensures
        lex_lt(a, c) ==> lex_lt(a, b) || lex_lt(b, c),
    decreases a.len(),
{
    if a.len() > 0 && b.len() > 0 && c.len() > 0 {
        lemma_char_code_injective(a[0], b[0]);
        lemma_char_code_injective(b[0], c[0]);
        lemma_char_code_injective(a[0], c[0]);
        if a[0] == b[0] && b[0] == c[0] {
            lemma_lex_split(a.drop_first(), b.drop_first(), c.drop_first());
        }
    }
}

proof fn lemma_char_code_injective(x: char, y: char)
    ensures
        (x as u32) == (y as u32) ==> x == y,
{
}

/// Of two different sequences, one comes before the other.
pub proof fn lemma_lex_total(a: Seq<char>, b: Seq<char>)
    ensures
        a != b ==> lex_lt(a, b) || lex_lt(b, a),
    decreases a.len(),
{
    if a.len() > 0 && b.len() > 0 {
        lemma_char_code_injective(a[0], b[0]);
    }
    if a.len() > 0 && b.len() > 0 && a[0] == b[0] {
        lemma_lex_total(a.drop_first(), b.drop_first());
        if a != b {
            assert(a.drop_first() != b.drop_first()) by {
                if a.drop_first() == b.drop_first() {
                    assert(a =~= seq![a[0]] + a.drop_first());
                    assert(b =~= seq![b[0]] + b.drop_first());
                }
            }
        }
    } else if a.len() == 0 && b.len() == 0 {
        assert(a =~= b);
    }
}

/// `precedes` is a strict weak order: never both ways, and when `x` comes
/// before `z`, any `y` comes after `x` or before `z`.
pub open spec fn weak_order<T: Ranked>() -> bool {
    &&& forall|x: T, y: T| #[trigger] x.precedes(&y) ==> !y.precedes(&x)
    &&& forall|x: T, y: T, z: T| #![trigger x.precedes(&y), y.precedes(&z)] #![trigger x.precedes(&z), y.precedes(&z)]
        #![trigger x.precedes(&y), x.precedes(&z)]
        x.precedes(&z) ==> x.precedes(&y) || y.precedes(&z)
}

/// No element of `s` precedes an earlier one.
pub open spec fn ranked_in_order<T: Ranked>(s: Seq<T>) -> bool {
    forall|i: int, j: int| #![trigger s[i], s[j]] 0 <= i < j < s.len() ==> !s[j].precedes(&s[i])
}

proof fn lemma_insert_ranked_in_order<T: Ranked>(s: Seq<T>, x: T)
    requires
        weak_order::<T>(),
        ranked_in_order(s),
    ensures
        ranked_in_order(insert_ranked(s, x)),
    decreases s.len(),
{
    if s.len() > 0 {
        let r = insert_ranked(s, x);
        if x.precedes(&s.last()) {
            let t = s.drop_last();
            assert(ranked_in_order(t)) by {
                assert forall|i: int, j: int| #![trigger t[i], t[j]] 0 <= i < j < t.len() implies !t[j].precedes(&t[i]) by {
                    assert(t[i] == s[i] && t[j] == s[j]);
                }
            }
            lemma_insert_ranked_in_order(t, x);
            lemma_insert_ranked_elements(t, x);
            let u = insert_ranked(t, x);
            assert(r == u.push(s.last()));
            assert forall|i: int| 0 <= i < u.len() implies #[trigger] u[i] == u[i] && !s.last().precedes(&u[i]) by {
                if u[i] != x {
                    let k = choose|k: int| 0 <= k < t.len() && u[i] == #[trigger] t[k];
                    assert(s[k] == t[k]);
                    assert(!s[s.len() - 1].precedes(&s[k]));
                }
            }
            assert forall|i: int, j: int| #![trigger r[i], r[j]] 0 <= i < j < r.len() implies !r[j].precedes(&r[i]) by {
                assert(r[i] == u[i]);
                if j < u.len() {
                    assert(r[j] == u[j]);
                } else {
                    assert(r[j] == s.last());
                }
            }
        } else {
            assert(r == s.push(x));
            assert forall|i: int, j: int| #![trigger r[i], r[j]] 0 <= i < j < r.len() implies !r[j].precedes(&r[i]) by {
                assert(r[i] == s[i]);
                if j < s.len() {
                    assert(r[j] == s[j]);
                } else {
                    assert(r[j] == x);
                    if i < s.len() - 1 {
                        assert(!s[s.len() - 1].precedes(&s[i]));
                        assert(!x.precedes(&s[s.len() - 1]));
                        if x.precedes(&s[i]) {
                            assert(x.precedes(&s[s.len() - 1]) || s[s.len() - 1].precedes(&s[i]));
                        }
                    }
                }
            }
        }
    }
}

/// Under a strict weak order, a stable sort leaves no element before one
/// that it precedes.
pub proof fn lemma_stable_sorted_in_order<T: Ranked>(s: Seq<T>)
    requires
        weak_order::<T>(),
    ensures
        ranked_in_order(stable_sorted(s)),
    decreases s.len(),
{
    if s.len() > 0 {
        lemma_stable_sorted_in_order(s.drop_last());
        lemma_insert_ranked_in_order(stable_sorted(s.drop_last()), s.last());
    }
}

/// Sorts `v` stably by `precedes`.
pub fn stable_sort<T: Ranked>(v: Vec<T>) -> (r: Vec<T>)
    ensures
        r@ == stable_sorted(v@),
{
    let mut v = v;
    let ghost orig = v@;
    let mut out: Vec<T> = Vec::new();
    let mut i: usize = 0;
    let n = v.len();
    assert(orig.take(0) =~= Seq::<T>::empty());
    while v.len() > 0
        invariant
            orig.len() == n,
            0 <= i <= n,
            v.len() == n - i,
            v@ == orig.skip(i as int),
            out@ == stable_sorted(orig.take(i as int)),
        decreases v.len(),
    {
        let x = v.remove(0);
        assert(x == orig[i as int]);
        assert(v@ =~= orig.skip(i + 1));
        let mut p = out.len();
        while p > 0 && x.goes_before(&out[p - 1])
            invariant
                0 <= p <= out@.len(),
                forall|j: int| p <= j < out@.len() ==> x.precedes(&#[trigger] out@[j]),
            decreases p,
        {
            p = p - 1;
        }
        proof {
            lemma_insert_ranked_at(out@, x, p as int);
            assert(orig.take(i + 1).drop_last() =~= orig.take(i as int));
            assert(orig.take(i + 1).last() == x);
        }
        out.insert(p, x);
        assert(out@ =~= stable_sorted(orig.take(i + 1)));
        i = i + 1;
    }
    assert(orig.take(n as int) =~= orig);
    out
}

/// A stable sort keeps the length, and every element of the result comes
/// from the input.
pub proof fn lemma_stable_sorted_elements<T: Ranked>(s: Seq<T>)
    ensures
        stable_sorted(s).len() == s.len(),
        forall|j: int|
            0 <= j < s.len() ==> exists|i: int| 0 <= i < s.len() && #[trigger] stable_sorted(s)[j] == s[i],
    decreases s.len(),
{
    if s.len() > 0 {
        let t = s.drop_last();
        lemma_stable_sorted_elements(t);
        lemma_insert_ranked_elements(stable_sorted(t), s.last());
        let r = stable_sorted(s);
        assert forall|j: int| 0 <= j < s.len() implies exists|i: int| 0 <= i < s.len() && #[trigger] r[j] == s[i] by {
            if r[j] == s.last() {
                assert(s[s.len() - 1] == s.last());
            } else {
                let k = choose|k: int| 0 <= k < t.len() && r[j] == #[trigger] stable_sorted(t)[k];
                let i = choose|i: int| 0 <= i < t.len() && #[trigger] stable_sorted(t)[k] == t[i];
                assert(t[i] == s[i]);
            }
        }
    }
}

pub proof fn lemma_insert_ranked_elements<T: Ranked>(s: Seq<T>, x: T)
    ensures
        insert_ranked(s, x).len() == s.len() + 1,
        forall|j: int|
            0 <= j < s.len() + 1 ==> #[trigger] insert_ranked(s, x)[j] == x || exists|k: int| 0 <= k < s.len() && insert_ranked(s, x)[j] == #[trigger] s[k],
    decreases s.len(),
{
    if s.len() > 0 && x.precedes(&s.last()) {
        let t = s.drop_last();
        lemma_insert_ranked_elements(t, x);
        let r = insert_ranked(s, x);
        assert forall|j: int| 0 <= j < s.len() + 1 implies #[trigger] r[j] == x || exists|k: int| 0 <= k < s.len() && r[j] == #[trigger] s[k] by {
            if j == s.len() {
                assert(r[j] == s[s.len() - 1]);
            } else if r[j] != x {
                let k = choose|k: int| 0 <= k < t.len() && insert_ranked(t, x)[j] == #[trigger] t[k];
                assert(t[k] == s[k]);
            }
        }
    } else if s.len() > 0 {
        let r = insert_ranked(s, x);
        assert forall|j: int| 0 <= j < s.len() + 1 implies #[trigger] r[j] == x || exists|k: int| 0 <= k < s.len() && r[j] == #[trigger] s[k] by {
            if j < s.len() {
                assert(r[j] == s[j]);
            }
        }
    }
}

} // verus!

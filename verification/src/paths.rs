//! File paths as lists of components, following std's `Path` on Unix: a
//! leading `/` is the root component, empty pieces and `.` pieces are dropped
//! (but for a `.` that begins a relative path), `..` stays.
use vstd::prelude::*;
use crate::completion::last_index_of;
use crate::text::{pieces, split_chars};

verus! {

/// The texts of a list of character vectors.
pub open spec fn texts(v: Seq<Vec<char>>) -> Seq<Seq<char>> {
    Seq::new(v.len(), |i: int| v[i]@)
}

pub proof fn lemma_texts_push(v: Seq<Vec<char>>, x: Vec<char>)
    ensures
        texts(v.push(x)) == texts(v).push(x@),
{
    assert(texts(v.push(x)) =~= texts(v).push(x@));
}

/// A component that names a file or directory (not the root, `.` or `..`).
pub open spec fn is_normal(p: Seq<char>) -> bool {
    p != seq!['/'] && p != seq!['.'] && p != seq!['.', '.']
}

/// The pieces that survive as components: all but the empty ones and `.`.
pub open spec fn kept_pieces(ps: Seq<Seq<char>>) -> Seq<Seq<char>>
    decreases ps.len(),
{
    if ps.len() == 0 {
        Seq::empty()
    } else {
        let r = kept_pieces(ps.drop_last());
        if ps.last().len() > 0 && ps.last() != seq!['.'] {
            r.push(ps.last())
        } else {
            r
        }
    }
}

/// The components of a path, each written as its text (`/` for the root).
pub open spec fn components_of(s: Seq<char>) -> Seq<Seq<char>> {
    let ps = pieces(s, '/');
    if s.len() > 0 && s[0] == '/' {
        seq![seq!['/']] + kept_pieces(ps)
    } else if ps[0] == seq!['.'] {
        seq![seq!['.']] + kept_pieces(ps)
    } else {
        kept_pieces(ps)
    }
}

/// The components of the path `s`.
pub fn components(s: &[char]) -> (r: Vec<Vec<char>>)
    ensures
        texts(r@) == components_of(s@),
{
    let ps = split_chars(s, '/');
    let ghost gps = pieces(s@, '/');
    proof {
        crate::text::lemma_pieces_nonempty(s@, '/');
    }
    let mut r: Vec<Vec<char>> = Vec::new();
    let ghost head: Seq<Seq<char>> = Seq::empty();
    if s.len() > 0 && s[0] == '/' {
        let mut root: Vec<char> = Vec::new();
        root.push('/');
        r.push(root);
        proof {
            head = seq![seq!['/']];
            assert(r@[0]@ =~= seq!['/']);
        }
    } else if ps[0].len() == 1 && ps[0][0] == '.' {
        let mut cur: Vec<char> = Vec::new();
        cur.push('.');
        r.push(cur);
        proof {
            head = seq![seq!['.']];
            assert(r@[0]@ =~= seq!['.']);
            assert(ps@[0]@ =~= seq!['.']);
        }
    } else {
        proof {
            assert(gps[0] != seq!['.']) by {
                if gps[0] == seq!['.'] {
                    assert(ps@[0]@.len() == 1);
                }
            }
        }
    }
    assert(texts(r@) =~= head);
    let mut i: usize = 0;
    assert(gps.take(0) =~= Seq::<Seq<char>>::empty());
    while i < ps.len()
        invariant
            0 <= i <= ps@.len(),
            ps@.len() == gps.len(),
            forall|j: int| 0 <= j < ps@.len() ==> (#[trigger] ps@[j])@ == gps[j],
            texts(r@) == head + kept_pieces(gps.take(i as int)),
        decreases ps.len() - i,
    {
        let p = &ps[i];
        assert(gps.take(i + 1).drop_last() =~= gps.take(i as int));
        let dot = p.len() == 1 && p[0] == '.';
        proof {
            if p@ == seq!['.'] {
                assert(p@.len() == 1 && p@[0] == '.');
            }
            if dot {
                assert(p@ =~= seq!['.']);
            }
        }
        if p.len() > 0 && !dot {
            let q = p.clone();
            proof {
                lemma_texts_push(r@, q);
            }
            r.push(q);
            assert(head + kept_pieces(gps.take(i + 1)) =~= (head + kept_pieces(gps.take(i as int))).push(gps[i as int]));
        }
        i = i + 1;
    }
    assert(gps.take(ps@.len() as int) =~= gps);
    r
}

/// A file name without its extension: up to its last `.`, unless that `.`
/// is its first character or there is none.
pub open spec fn stem_of(name: Seq<char>) -> Seq<char> {
    let d = last_index_of(name, '.');
    if d > 0 {
        name.take(d)
    } else {
        name
    }
}

/// The components of a path once its extension is removed: the last component
/// loses it when it is a file name; a stem that reads `.` is no component
/// unless it is the whole path.
pub open spec fn without_extension(c: Seq<Seq<char>>) -> Seq<Seq<char>> {
    if c.len() == 0 || !is_normal(c.last()) {
        c
    } else {
        let st = stem_of(c.last());
        if st == seq!['.'] && c.len() > 1 {
            c.drop_last()
        } else {
            c.drop_last().push(st)
        }
    }
}

/// The texts joined, with `sep` between each two.
pub open spec fn join_sep(c: Seq<Seq<char>>, sep: char) -> Seq<char>
    decreases c.len(),
{
    if c.len() == 0 {
        Seq::empty()
    } else if c.len() == 1 {
        c[0]
    } else {
        join_sep(c.drop_last(), sep) + seq![sep] + c.last()
    }
}

/// `c` begins with the components of `p`.
pub open spec fn has_components_prefix(c: Seq<Seq<char>>, p: Seq<Seq<char>>) -> bool {
    p.len() <= c.len() && c.take(p.len() as int) == p
}

/// The components after a leading `src` directory, if there is one.
pub open spec fn after_src(c: Seq<Seq<char>>) -> Seq<Seq<char>> {
    if c.len() > 0 && c[0] == seq!['s', 'r', 'c'] {
        c.skip(1)
    } else {
        c
    }
}

/// The normal components of `c` (no root, `.` or `..`).
pub open spec fn normal_only(c: Seq<Seq<char>>) -> Seq<Seq<char>>
    decreases c.len(),
{
    if c.len() == 0 {
        Seq::empty()
    } else {
        let r = normal_only(c.drop_last());
        if is_normal(c.last()) {
            r.push(c.last())
        } else {
            r
        }
    }
}

pub fn is_normal_component(p: &Vec<char>) -> (r: bool)
    ensures
        r == is_normal(p@),
{
    let root = p.len() == 1 && p[0] == '/';
    let cur = p.len() == 1 && p[0] == '.';
    let parent = p.len() == 2 && p[0] == '.' && p[1] == '.';
    proof {
        if p@ == seq!['/'] {
            assert(p@.len() == 1 && p@[0] == '/');
        }
        if p@ == seq!['.'] {
            assert(p@.len() == 1 && p@[0] == '.');
        }
        if p@ == seq!['.', '.'] {
            assert(p@.len() == 2 && p@[0] == '.' && p@[1] == '.');
        }
        if root {
            assert(p@ =~= seq!['/']);
        }
        if cur {
            assert(p@ =~= seq!['.']);
        }
        if parent {
            assert(p@ =~= seq!['.', '.']);
        }
    }
    !(root || cur || parent)
}

/// Index of the last `'.'` in `s`, if there is one.
fn last_dot(s: &[char]) -> (r: Option<usize>)
    ensures
        r matches Some(i) ==> i == last_index_of(s@, '.') && i < s.len(),
        r is None ==> last_index_of(s@, '.') == -1,
{
    let mut i: usize = s.len();
    assert(s@.take(s.len() as int) =~= s@);
    while i > 0
        invariant
            0 <= i <= s.len(),
            last_index_of(s@, '.') == last_index_of(s@.take(i as int), '.'),
        decreases i,
    {
        assert(s@.take(i as int).drop_last() =~= s@.take(i - 1));
        if s[i - 1] == '.' {
            assert(s@.take(i as int).last() == '.');
            return Some(i - 1);
        }
        i = i - 1;
    }
    assert(s@.take(0) =~= Seq::<char>::empty());
    None
}

/// The stem of a file name.
pub fn stem(name: &[char]) -> (r: Vec<char>)
    ensures
        r@ == stem_of(name@),
{
    let end: usize = match last_dot(name) {
        Some(d) => if d > 0 {
            d
        } else {
            name.len()
        },
        None => name.len(),
    };
    assert(end == (if last_index_of(name@, '.') > 0 {
        last_index_of(name@, '.')
    } else {
        name@.len() as int
    }));
    let mut r: Vec<char> = Vec::new();
    let mut i: usize = 0;
    while i < end
        invariant
            0 <= i <= end <= name.len(),
            r@ == name@.take(i as int),
        decreases end - i,
    {
        r.push(name[i]);
        i = i + 1;
        assert(r@ =~= name@.take(i as int));
    }
    assert(name@.take(name@.len() as int) =~= name@);
    r
}

/// Removes the extension of the last component, as `with_extension("")` does.
pub fn strip_extension(c: Vec<Vec<char>>) -> (r: Vec<Vec<char>>)
    ensures
        texts(r@) == without_extension(texts(c@)),
{
    let mut c = c;
    let n = c.len();
    if n == 0 {
        return c;
    }
    if !is_normal_component(&c[n - 1]) {
        return c;
    }
    let st = stem(c[n - 1].as_slice());
    let ghost before = c@;
    let _ = c.pop();
    assert(texts(c@) =~= texts(before).drop_last());
    let cur = st.len() == 1 && st[0] == '.';
    proof {
        if st@ == seq!['.'] {
            assert(st@.len() == 1 && st@[0] == '.');
        }
        if cur {
            assert(st@ =~= seq!['.']);
        }
    }
    if cur && n > 1 {
        c
    } else {
        proof {
            lemma_texts_push(c@, st);
        }
        c.push(st);
        c
    }
}

/// The texts joined, with `sep` between each two.
pub fn join_with(c: &Vec<Vec<char>>, sep: char) -> (r: Vec<char>)
    ensures
        r@ == join_sep(texts(c@), sep),
{
    let mut r: Vec<char> = Vec::new();
    let mut i: usize = 0;
    assert(texts(c@).take(0) =~= Seq::<Seq<char>>::empty());
    while i < c.len()
        invariant
            0 <= i <= c@.len(),
            r@ == join_sep(texts(c@).take(i as int), sep),
        decreases c.len() - i,
    {
        let ghost t = texts(c@).take(i + 1);
        assert(t.drop_last() =~= texts(c@).take(i as int));
        if i > 0 {
            r.push(sep);
        }
        let p = &c[i];
        let mut k: usize = 0;
        let ghost r0 = r@;
        while k < p.len()
            invariant
                0 <= k <= p@.len(),
                r@ == r0 + p@.take(k as int),
            decreases p.len() - k,
        {
            r.push(p[k]);
            k = k + 1;
            assert(r@ =~= r0 + p@.take(k as int));
        }
        assert(p@.take(p@.len() as int) =~= p@);
        proof {
            if i == 0 {
                assert(r@ =~= t[0]);
            } else {
                assert(r@ =~= join_sep(t.drop_last(), sep) + seq![sep] + t.last());
            }
        }
        i = i + 1;
    }
    assert(texts(c@).take(c@.len() as int) =~= texts(c@));
    r
}

/// The components of `c` after those of `p`, when `c` begins with them.
#[verifier::loop_isolation(false)]
pub fn strip_components_prefix(c: &Vec<Vec<char>>, p: &Vec<Vec<char>>) -> (r: Option<Vec<Vec<char>>>)
    ensures
        r is Some <==> has_components_prefix(texts(c@), texts(p@)),
        r matches Some(rest) ==> texts(rest@) == texts(c@).skip(p@.len() as int),
{
    if p.len() > c.len() {
        return None;
    }
    let mut i: usize = 0;
    while i < p.len()
        invariant
            p@.len() <= c@.len(),
            0 <= i <= p@.len(),
            forall|j: int| 0 <= j < i ==> c@[j]@ == p@[j]@,
        decreases p.len() - i,
    {
        let a = &c[i];
        let b = &p[i];
        if a.len() != b.len() {
            assert(texts(c@).take(p@.len() as int)[i as int] == c@[i as int]@);
            assert(texts(p@)[i as int] == p@[i as int]@);
            return None;
        }
        let mut k: usize = 0;
        while k < a.len()
            invariant
                a@.len() == b@.len(),
                0 <= k <= a@.len(),
                forall|m: int| 0 <= m < k ==> a@[m] == b@[m],
            decreases a.len() - k,
        {
            if a[k] != b[k] {
                assert(texts(c@).take(p@.len() as int)[i as int] == c@[i as int]@);
                assert(texts(p@)[i as int] == p@[i as int]@);
                assert(a@[k as int] != b@[k as int]);
                return None;
            }
            k = k + 1;
        }
        assert(a@ =~= b@);
        i = i + 1;
    }
    assert(texts(c@).take(p@.len() as int) =~= texts(p@));
    let mut rest: Vec<Vec<char>> = Vec::new();
    let mut j: usize = p.len();
    assert(texts(rest@) =~= texts(c@).subrange(p@.len() as int, j as int));
    while j < c.len()
        invariant
            p@.len() <= j <= c@.len(),
            texts(rest@) == texts(c@).subrange(p@.len() as int, j as int),
        decreases c.len() - j,
    {
        let q = c[j].clone();
        proof {
            lemma_texts_push(rest@, q);
        }
        rest.push(q);
        assert(texts(c@).subrange(p@.len() as int, j + 1) =~= texts(c@).subrange(
            p@.len() as int,
            j as int,
        ).push(c@[j as int]@));
        j = j + 1;
    }
    assert(texts(c@).subrange(p@.len() as int, c@.len() as int) =~= texts(c@).skip(
        p@.len() as int,
    ));
    Some(rest)
}

/// The path that a list of components stands for: the root, then the other
/// components separated by `/`.
pub open spec fn render(c: Seq<Seq<char>>) -> Seq<char> {
    if c.len() > 0 && c[0] == seq!['/'] {
        seq!['/'] + join_sep(c.skip(1), '/')
    } else {
        join_sep(c, '/')
    }
}

/// The directories from `c` upwards, each the parent of the one before, as
/// `Path::parent` gives them: up to the root for an absolute path, up to the
/// empty path for a relative one.
pub open spec fn ancestors_of(c: Seq<Seq<char>>) -> Seq<Seq<Seq<char>>> {
    let low: int = if c.len() > 0 && c[0] == seq!['/'] { 1 } else { 0 };
    Seq::new((c.len() - low + 1) as nat, |i: int| c.take(c.len() - i))
}

/// The path a list of components stands for.
pub fn render_components(c: &Vec<Vec<char>>) -> (r: Vec<char>)
    ensures
        r@ == render(texts(c@)),
{
    let rooted = c.len() > 0 && c[0].len() == 1 && c[0][0] == '/';
    proof {
        if texts(c@).len() > 0 && texts(c@)[0] == seq!['/'] {
            assert(c@[0]@.len() == 1 && c@[0]@[0] == '/');
        }
        if rooted {
            assert(texts(c@)[0] =~= seq!['/']);
        }
    }
    if rooted {
        let mut rest: Vec<Vec<char>> = Vec::new();
        let mut i: usize = 1;
        assert(texts(rest@) =~= texts(c@).subrange(1, 1));
        while i < c.len()
            invariant
                1 <= i <= c@.len(),
                texts(rest@) == texts(c@).subrange(1, i as int),
            decreases c.len() - i,
        {
            let q = c[i].clone();
            proof {
                lemma_texts_push(rest@, q);
            }
            rest.push(q);
            assert(texts(c@).subrange(1, i + 1) =~= texts(c@).subrange(1, i as int).push(c@[i as int]@));
            i = i + 1;
        }
        assert(texts(c@).subrange(1, c@.len() as int) =~= texts(c@).skip(1));
        let tail = join_with(&rest, '/');
        let mut r: Vec<char> = Vec::new();
        r.push('/');
        let mut k: usize = 0;
        while k < tail.len()
            invariant
                0 <= k <= tail@.len(),
                r@ == seq!['/'] + tail@.take(k as int),
            decreases tail.len() - k,
        {
            r.push(tail[k]);
            k = k + 1;
            assert(r@ =~= seq!['/'] + tail@.take(k as int));
        }
        assert(tail@.take(tail@.len() as int) =~= tail@);
        r
    } else {
        join_with(c, '/')
    }
}

/// The paths of the directories from `dir` upwards, `dir` first.
pub fn ancestor_paths(dir: &str) -> (r: Vec<String>)
    ensures
        r@.len() == ancestors_of(components_of(dir@)).len(),
        forall|i: int|
            0 <= i < r@.len() ==> (#[trigger] r@[i])@ == render(ancestors_of(components_of(dir@))[i]),
{
    let chars = crate::text::chars_of(dir);
    let c = components(chars.as_slice());
    let ghost cs = components_of(dir@);
    let n = c.len();
    let low: usize = if n > 0 && c[0].len() == 1 && c[0][0] == '/' {
        1
    } else {
        0
    };
    proof {
        if cs.len() > 0 && cs[0] == seq!['/'] {
            assert(c@[0]@.len() == 1 && c@[0]@[0] == '/');
        }
        if low == 1 {
            assert(cs[0] =~= seq!['/']);
        }
    }
    let ghost anc = ancestors_of(cs);
    let mut r: Vec<String> = Vec::new();
    let mut cur: Vec<Vec<char>> = c;
    let mut k: usize = n;
    loop
        invariant_except_break
            low <= k <= n,
            texts(cur@) == cs.take(k as int),
            r@.len() == n - k,
        invariant
            low <= 1,
            low <= n,
            n == cs.len(),
            anc == ancestors_of(cs),
            anc.len() == n - low + 1,
            forall|j: int| 0 <= j < r@.len() ==> (#[trigger] r@[j])@ == render(anc[j]),
        ensures
            r@.len() == n - low + 1,
        decreases k,
    {
        let text = render_components(&cur);
        let s = crate::text::string_from_chars(text.as_slice());
        assert(anc[(n - k) as int] == cs.take(k as int));
        r.push(s);
        if k == low {
            break;
        }
        let _ = cur.pop();
        k = k - 1;
        assert(texts(cur@) =~= cs.take(k as int));
    }
    r
}

/// The file name of a path: its last component, when that names a file.
pub open spec fn path_file_name(path: Seq<char>) -> Option<Seq<char>> {
    let c = components_of(path);
    if c.len() > 0 && is_normal(c.last()) {
        Some(c.last())
    } else {
        None
    }
}

/// The file name of a path, as its text.
pub fn file_name_of_path(path: &str) -> (r: Option<Vec<char>>)
    ensures
        r matches Some(f) ==> path_file_name(path@) == Some(f@),
        r is None ==> path_file_name(path@) is None,
{
    let c = components(crate::text::chars_of(path).as_slice());
    if c.len() > 0 && is_normal_component(&c[c.len() - 1]) {
        assert(texts(c@).last() == c@[c@.len() - 1]@);
        Some(c[c.len() - 1].clone())
    } else {
        proof {
            if texts(c@).len() > 0 {
                assert(texts(c@).last() == c@[c@.len() - 1]@);
            }
        }
        None
    }
}

} // verus!

//! Character-level text model shared by the rest of the library.
//!
//! Text is modelled as a sequence of `char`s.  Positions that the editor
//! protocol measures in UTF-8 bytes or UTF-16 code units are defined by
//! summing the encoded width of each character.
use vstd::prelude::*;
use vstd::string::*;

verus! {

/// Number of bytes of the UTF-8 encoding of `c`.
pub open spec fn utf8_width(c: char) -> nat {
    if (c as u32) < 0x80 {
        1
    } else if (c as u32) < 0x800 {
        2
    } else if (c as u32) < 0x10000 {
        3
    } else {
        4
    }
}

/// Number of UTF-16 code units of `c`.
pub open spec fn utf16_width(c: char) -> nat {
    if (c as u32) < 0x10000 {
        1
    } else {
        2
    }
}

/// Length in UTF-8 bytes of a character sequence.
pub open spec fn byte_len(s: Seq<char>) -> nat
    decreases s.len(),
{
    if s.len() == 0 {
        0
    } else {
        byte_len(s.drop_last()) + utf8_width(s.last())
    }
}

/// Length in UTF-16 code units of a character sequence.
pub open spec fn utf16_len(s: Seq<char>) -> nat
    decreases s.len(),
{
    if s.len() == 0 {
        0
    } else {
        utf16_len(s.drop_last()) + utf16_width(s.last())
    }
}

/// `b` is a character boundary of `s`: some prefix of `s` is exactly `b` bytes long.
pub open spec fn is_byte_boundary(s: Seq<char>, b: int) -> bool {
    exists|k: int| 0 <= k <= s.len() && byte_len(#[trigger] s.take(k)) == b
}

/// The number of characters whose encoding takes the first `b` bytes of `s`.
pub open spec fn chars_in_bytes(s: Seq<char>, b: int) -> int {
    choose|k: int| 0 <= k <= s.len() && byte_len(#[trigger] s.take(k)) == b
}

pub proof fn lemma_byte_len_take_step(s: Seq<char>, k: int)
    requires
        0 <= k < s.len(),
    ensures
        byte_len(s.take(k + 1)) == byte_len(s.take(k)) + utf8_width(s[k]),
        utf16_len(s.take(k + 1)) == utf16_len(s.take(k)) + utf16_width(s[k]),
{
    assert(s.take(k + 1).drop_last() =~= s.take(k));
}

pub proof fn lemma_byte_len_take_monotone(s: Seq<char>, j: int, k: int)
    requires
        0 <= j <= k <= s.len(),
    ensures
        byte_len(s.take(j)) <= byte_len(s.take(k)),
        k > j ==> byte_len(s.take(j)) < byte_len(s.take(k)),
    decreases k - j,
{
    if j < k {
        lemma_byte_len_take_step(s, k - 1);
        lemma_byte_len_take_monotone(s, j, k - 1);
    }
}

/// Character boundaries determine a unique character count.
pub proof fn lemma_chars_in_bytes_unique(s: Seq<char>, k: int)
    requires
        0 <= k <= s.len(),
    ensures
        is_byte_boundary(s, byte_len(s.take(k)) as int),
        chars_in_bytes(s, byte_len(s.take(k)) as int) == k,
{
    let b = byte_len(s.take(k)) as int;
    assert(is_byte_boundary(s, b));
    let j = chars_in_bytes(s, b);
    if j < k {
        lemma_byte_len_take_monotone(s, j, k);
    } else if j > k {
        lemma_byte_len_take_monotone(s, k, j);
    }
}

pub proof fn lemma_byte_len_add(a: Seq<char>, b: Seq<char>)
    ensures
        byte_len(a + b) == byte_len(a) + byte_len(b),
        utf16_len(a + b) == utf16_len(a) + utf16_len(b),
    decreases b.len(),
{
    if b.len() == 0 {
        assert(a + b =~= a);
    } else {
        lemma_byte_len_add(a, b.drop_last());
        assert((a + b).drop_last() =~= a + b.drop_last());
    }
}

/// Width in bytes of a character.
pub fn char_utf8_width(c: char) -> (r: usize)
    ensures
        r == utf8_width(c),
{
    let u = c as u32;
    if u < 0x80 {
        1
    } else if u < 0x800 {
        2
    } else if u < 0x10000 {
        3
    } else {
        4
    }
}

/// Width in UTF-16 code units of a character.
pub fn char_utf16_width(c: char) -> (r: usize)
    ensures
        r == utf16_width(c),
{
    if (c as u32) < 0x10000 {
        1
    } else {
        2
    }
}

/// The characters of a string slice, in order.
pub fn chars_of(s: &str) -> (r: Vec<char>)
    ensures
        r@ == s@,
{
    let mut v: Vec<char> = Vec::new();
    for c in it: s.chars()
        invariant
            v@ == it.seq().take(it.index() as int),
    {
        v.push(c);
    }
    assert(v@ =~= s@);
    v
}

/// Builds a string holding exactly the given characters (std's `FromIterator<char>`).
#[verifier::external_body]
pub(crate) fn string_from_chars(v: &[char]) -> (r: String)
    ensures
        r@ == v@,
{
    v.iter().collect()
}

/// Splits `s` at every `'\n'`: the pieces between line feeds, the last piece
/// being what follows the last line feed (possibly empty).
pub open spec fn split_newlines(s: Seq<char>) -> Seq<Seq<char>>
    decreases s.len(),
{
    if s.len() == 0 {
        seq![Seq::<char>::empty()]
    } else if s.last() == '\n' {
        split_newlines(s.drop_last()).push(Seq::<char>::empty())
    } else {
        let r = split_newlines(s.drop_last());
        r.update(r.len() - 1, r.last().push(s.last()))
    }
}

pub open spec fn strip_carriage_return(line: Seq<char>) -> Seq<char> {
    if line.len() > 0 && line.last() == '\r' {
        line.drop_last()
    } else {
        line
    }
}

/// The lines of `s` as std's `str::lines` yields them: split at `'\n'`, a line
/// ended by `"\r\n"` loses its `'\r'`, and an empty piece after a final line
/// feed is no line.
pub open spec fn lines_of(s: Seq<char>) -> Seq<Seq<char>> {
    let parts = split_newlines(s);
    let n = parts.len() as int;
    let count = if parts[n - 1].len() == 0 { n - 1 } else { n };
    Seq::new(
        count as nat,
        |i: int|
            if i < n - 1 {
                strip_carriage_return(parts[i])
            } else {
                parts[i]
            },
    )
}

pub proof fn lemma_split_newlines_nonempty(s: Seq<char>)
    ensures
        split_newlines(s).len() >= 1,
    decreases s.len(),
{
    if s.len() > 0 {
        lemma_split_newlines_nonempty(s.drop_last());
    }
}

/// The lines of `s`, as std's `str::lines` yields them.
pub fn lines(s: &[char]) -> (r: Vec<Vec<char>>)
    ensures
        r@.len() == lines_of(s@).len(),
        forall|i: int| 0 <= i < r@.len() ==> (#[trigger] r@[i])@ == lines_of(s@)[i],
{
    // Pieces between line feeds, the last one still open.
    let mut done: Vec<Vec<char>> = Vec::new();
    let mut cur: Vec<char> = Vec::new();
    let mut i: usize = 0;
    assert(s@.take(0) =~= Seq::<char>::empty());
    while i < s.len()
        invariant
            0 <= i <= s.len(),
            split_newlines(s@.take(i as int)).len() == done@.len() + 1,
            forall|j: int|
                0 <= j < done@.len() ==> (#[trigger] done@[j])@ == split_newlines(
                    s@.take(i as int),
                )[j],
            cur@ == split_newlines(s@.take(i as int)).last(),
        decreases s.len() - i,
    {
        let c = s[i];
        assert(s@.take(i + 1).drop_last() =~= s@.take(i as int));
        if c == '\n' {
            done.push(cur);
            cur = Vec::new();
        } else {
            cur.push(c);
        }
        i = i + 1;
    }
    assert(s@.take(s.len() as int) =~= s@);
    let ghost parts = split_newlines(s@);
    let n = done.len();
    let mut r: Vec<Vec<char>> = Vec::new();
    let mut j: usize = 0;
    while j < n
        invariant
            n == done@.len(),
            parts.len() == n + 1,
            0 <= j <= n,
            r@.len() == j,
            forall|k: int| 0 <= k < n ==> (#[trigger] done@[k])@ == parts[k],
            forall|k: int|
                0 <= k < j ==> (#[trigger] r@[k])@ == strip_carriage_return(parts[k]),
        decreases n - j,
    {
        let piece = &done[j];
        let len = piece.len();
        let mut line: Vec<char> = Vec::new();
        let keep = if len > 0 && piece[len - 1] == '\r' {
            len - 1
        } else {
            len
        };
        let mut k: usize = 0;
        while k < keep
            invariant
                0 <= k <= keep <= len == piece@.len(),
                line@ == piece@.take(k as int),
            decreases keep - k,
        {
            line.push(piece[k]);
            k = k + 1;
            assert(line@ =~= piece@.take(k as int));
        }
        assert(line@ =~= strip_carriage_return(piece@));
        r.push(line);
        j = j + 1;
    }
    if cur.len() > 0 {
        r.push(cur);
    }
    assert(r@.len() == lines_of(s@).len());
    assert forall|k: int| 0 <= k < r@.len() implies (#[trigger] r@[k])@ == lines_of(s@)[k] by {
        if k < n {
        } else {
        }
    }
    r
}

} // verus!

verus! {

/// Finds the first character count whose prefix of `s` covers at least `b` bytes.
/// `None` when `s` has fewer than `b` bytes.  When `b` is a character boundary,
/// the count found is exactly the number of characters in the first `b` bytes.
pub fn locate_byte_offset(s: &[char], b: usize) -> (r: Option<usize>)
    requires
        b <= u32::MAX,
    ensures
        r is None <==> b > byte_len(s@),
        r matches Some(k) ==> {
            &&& 0 <= k <= s@.len()
            &&& byte_len(s@.take(k as int)) >= b
            &&& k > 0 ==> byte_len(s@.take(k - 1)) < b
        },
        r matches Some(k) ==> (is_byte_boundary(s@, b as int) ==> {
            &&& byte_len(s@.take(k as int)) == b
            &&& k == chars_in_bytes(s@, b as int)
        }),
{
    let mut k: usize = 0;
    let mut acc: u64 = 0;
    assert(s@.take(0) =~= Seq::<char>::empty());
    while k < s.len() && acc < b as u64
        invariant
            0 <= k <= s@.len(),
            acc == byte_len(s@.take(k as int)),
            acc < b + 4,
            b <= u32::MAX,
            k > 0 ==> byte_len(s@.take(k - 1)) < b,
        decreases s.len() - k,
    {
        proof {
            lemma_byte_len_take_step(s@, k as int);
        }
        acc = acc + char_utf8_width(s[k]) as u64;
        k = k + 1;
    }
    if acc >= b as u64 {
        proof {
            lemma_byte_len_take_monotone(s@, k as int, s@.len() as int);
            assert(s@.take(s@.len() as int) =~= s@);
            if is_byte_boundary(s@, b as int) {
                let j = chars_in_bytes(s@, b as int);
                if j < k {
                    lemma_byte_len_take_monotone(s@, j, k - 1);
                } else if j > k {
                    lemma_byte_len_take_monotone(s@, k as int, j);
                }
            }
        }
        Some(k)
    } else {
        assert(s@.take(k as int) =~= s@);
        None
    }
}

/// Length in bytes of `s`, provided it is no more than `bound`; `None` beyond that.
pub fn byte_len_within(s: &[char], bound: usize) -> (r: Option<usize>)
    requires
        bound <= u32::MAX,
    ensures
        r matches Some(n) ==> n == byte_len(s@),
        r is None <==> byte_len(s@) > bound,
{
    let mut k: usize = 0;
    let mut acc: u64 = 0;
    assert(s@.take(0) =~= Seq::<char>::empty());
    while k < s.len()
        invariant
            0 <= k <= s@.len(),
            acc == byte_len(s@.take(k as int)),
            acc <= bound,
            bound <= u32::MAX,
        decreases s.len() - k,
    {
        proof {
            lemma_byte_len_take_step(s@, k as int);
        }
        acc = acc + char_utf8_width(s[k]) as u64;
        k = k + 1;
        if acc > bound as u64 {
            proof {
                lemma_byte_len_take_monotone(s@, k as int, s@.len() as int);
            }
            assert(s@.take(s@.len() as int) =~= s@);
            return None;
        }
    }
    assert(s@.take(k as int) =~= s@);
    Some(acc as usize)
}

} // verus!

verus! {

/// Splits `s` at every `sep`: the pieces between separators, in order; the
/// last piece is what follows the last separator (possibly empty).
pub open spec fn pieces(s: Seq<char>, sep: char) -> Seq<Seq<char>>
    decreases s.len(),
{
    if s.len() == 0 {
        seq![Seq::<char>::empty()]
    } else if s.last() == sep {
        pieces(s.drop_last(), sep).push(Seq::<char>::empty())
    } else {
        let r = pieces(s.drop_last(), sep);
        r.update(r.len() - 1, r.last().push(s.last()))
    }
}

pub proof fn lemma_pieces_nonempty(s: Seq<char>, sep: char)
    ensures
        pieces(s, sep).len() >= 1,
    decreases s.len(),
{
    if s.len() > 0 {
        lemma_pieces_nonempty(s.drop_last(), sep);
    }
}

/// The pieces of `s` between occurrences of `sep` (std's `split`).
pub fn split_chars(s: &[char], sep: char) -> (r: Vec<Vec<char>>)
    ensures
        r@.len() == pieces(s@, sep).len(),
        forall|i: int| 0 <= i < r@.len() ==> (#[trigger] r@[i])@ == pieces(s@, sep)[i],
{
    let mut done: Vec<Vec<char>> = Vec::new();
    let mut cur: Vec<char> = Vec::new();
    let mut i: usize = 0;
    assert(s@.take(0) =~= Seq::<char>::empty());
    while i < s.len()
        invariant
            0 <= i <= s.len(),
            pieces(s@.take(i as int), sep).len() == done@.len() + 1,
            forall|j: int|
                0 <= j < done@.len() ==> (#[trigger] done@[j])@ == pieces(s@.take(i as int), sep)[j],
            cur@ == pieces(s@.take(i as int), sep).last(),
        decreases s.len() - i,
    {
        let c = s[i];
        assert(s@.take(i + 1).drop_last() =~= s@.take(i as int));
        if c == sep {
            done.push(cur);
            cur = Vec::new();
        } else {
            cur.push(c);
        }
        i = i + 1;
    }
    assert(s@.take(s.len() as int) =~= s@);
    done.push(cur);
    done
}

} // verus!

verus! {

/// The texts of a list of strings.
pub open spec fn string_texts(v: Seq<String>) -> Seq<Seq<char>> {
    v.map_values(|s: String| s@)
}

/// The strings joined, with `sep` between each two (std's `join`).
pub fn join_strings(v: &Vec<String>, sep: char) -> (r: String)
    ensures
        r@ == crate::paths::join_sep(string_texts(v@), sep),
{
    let mut r = String::new();
    let mut i: usize = 0;
    let mut sep_buf: Vec<char> = Vec::new();
    sep_buf.push(sep);
    let sep_str = string_from_chars(sep_buf.as_slice());
    assert(string_texts(v@).take(0) =~= Seq::<Seq<char>>::empty());
    while i < v.len()
        invariant
            0 <= i <= v@.len(),
            sep_str@ == seq![sep],
            r@ == crate::paths::join_sep(string_texts(v@).take(i as int), sep),
        decreases v.len() - i,
    {
        let ghost t = string_texts(v@).take(i + 1);
        assert(t.drop_last() =~= string_texts(v@).take(i as int));
        if i > 0 {
            r.append(sep_str.as_str());
        }
        r.append(v[i].as_str());
        proof {
            if i == 0 {
                assert(r@ =~= t[0]);
            } else {
                assert(r@ =~= crate::paths::join_sep(t.drop_last(), sep) + seq![sep] + t.last());
            }
        }
        i = i + 1;
    }
    assert(string_texts(v@).take(v@.len() as int) =~= string_texts(v@));
    r
}

/// The texts joined, with the text `sep` between each two.
pub open spec fn join_text(c: Seq<Seq<char>>, sep: Seq<char>) -> Seq<char>
    decreases c.len(),
{
    if c.len() == 0 {
        Seq::empty()
    } else if c.len() == 1 {
        c[0]
    } else {
        join_text(c.drop_last(), sep) + sep + c.last()
    }
}

/// The strings joined, with `sep` between each two (std's `join`).
pub fn join_strings_with(v: &Vec<String>, sep: &str) -> (r: String)
    ensures
        r@ == join_text(string_texts(v@), sep@),
{
    let mut r = String::new();
    let mut i: usize = 0;
    assert(string_texts(v@).take(0) =~= Seq::<Seq<char>>::empty());
    while i < v.len()
        invariant
            0 <= i <= v@.len(),
            r@ == join_text(string_texts(v@).take(i as int), sep@),
        decreases v.len() - i,
    {
        let ghost t = string_texts(v@).take(i + 1);
        assert(t.drop_last() =~= string_texts(v@).take(i as int));
        if i > 0 {
            r.append(sep);
        }
        r.append(v[i].as_str());
        proof {
            if i == 0 {
                assert(r@ =~= t[0]);
            } else {
                assert(r@ =~= join_text(t.drop_last(), sep@) + sep@ + t.last());
            }
        }
        i = i + 1;
    }
    assert(string_texts(v@).take(v@.len() as int) =~= string_texts(v@));
    r
}

} // verus!

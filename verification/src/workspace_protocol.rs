//! The workspace file operations of the protocol: which renamed files are
//! Gren modules, how the edits prepared for several renamed files merge, and
//! the file filters the server registers for.
use vstd::prelude::*;
use vstd::string::*;
use crate::completion::last_index_of;
use crate::module_rename::{file_path_of, uri_file_path};
use crate::paths::{file_name_of_path, path_file_name};
use crate::rename::{FileEdits, WorkspaceEdit};
use crate::rename_check::{url_path, url_path_of};
use crate::search::{ascii_lower, char_ascii_lower};
use crate::text::chars_of;

verus! {

/// One file the editor renames.
#[derive(Debug, Clone)]
pub struct FileRename {
    pub old_uri: String,
    pub new_uri: String,
}

/// Why a workspace file operation failed.
#[derive(Debug, Clone, Copy, PartialEq, Eq, Structural)]
pub enum WorkspaceProtocolError {
    /// An old URI is no URL.
    InvalidOldUri,
    /// A new URI is no URL.
    InvalidNewUri,
}

/// The extension of a file name: what follows its last `.`, unless that `.`
/// is its first character or there is none.
pub open spec fn extension_of(name: Seq<char>) -> Option<Seq<char>> {
    let d = last_index_of(name, '.');
    if d > 0 {
        Some(name.skip(d + 1))
    } else {
        None
    }
}

/// Two texts are equal but for ASCII case.
pub open spec fn eq_ignore_ascii_case(a: Seq<char>, b: Seq<char>) -> bool {
    a.len() == b.len() && forall|i: int| 0 <= i < a.len() ==> ascii_lower(#[trigger] a[i]) == ascii_lower(b[i])
}

/// A URI names a Gren file: it is a file URL whose file's extension is
/// `gren`, in any ASCII case.
pub open spec fn gren_file(uri: Seq<char>) -> bool {
    file_path_of(uri) matches Some(p) && (path_file_name(p) matches Some(f) && (extension_of(f) matches Some(
        e,
    ) && eq_ignore_ascii_case(e, "gren"@)))
}

fn last_dot(s: &[char]) -> (r: Option<usize>)
    ensures
        r matches Some(d) ==> d == last_index_of(s@, '.') && d < s@.len(),
        r is None ==> last_index_of(s@, '.') == -1,
{
    let mut i: usize = s.len();
    assert(s@.take(s@.len() as int) =~= s@);
    while i > 0
        invariant
            0 <= i <= s@.len(),
            last_index_of(s@, '.') == last_index_of(s@.take(i as int), '.'),
        decreases i,
    {
        assert(s@.take(i as int).drop_last() =~= s@.take(i - 1));
        if s[i - 1] == '.' {
            return Some(i - 1);
        }
        i = i - 1;
    }
    assert(s@.take(0) =~= Seq::<char>::empty());
    None
}

/// Whether the URI names a Gren file.
#[verifier::loop_isolation(false)]
pub fn is_gren_file(uri: &str) -> (r: bool)
    ensures
        r == gren_file(uri@),
{
    let path = match uri_file_path(uri) {
        Some(p) => p,
        None => return false,
    };
    let name = match file_name_of_path(path.as_str()) {
        Some(n) => n,
        None => return false,
    };
    let d = match last_dot(name.as_slice()) {
        Some(d) => d,
        None => return false,
    };
    if d == 0 {
        return false;
    }
    let ext = chars_of("gren");
    proof {
        reveal_strlit("gren");
    }
    if name.len() - (d + 1) != 4 {
        return false;
    }
    let mut i: usize = 0;
    while i < 4
        invariant
            0 <= i <= 4,
            ext@ == "gren"@,
            ext@.len() == 4,
            ext.len() == 4,
            name@.len() == d + 5,
            name.len() == d + 5,
            forall|j: int| 0 <= j < i ==> ascii_lower(#[trigger] name@.skip(d + 1)[j]) == ascii_lower(ext@[j]),
        decreases 4 - i,
    {
        if char_ascii_lower(name[d + 1 + i]) != char_ascii_lower(ext[i]) {
            assert(name@.skip(d + 1)[i as int] == name@[d + 1 + i]);
            return false;
        }
        assert(name@.skip(d + 1)[i as int] == name@[d + 1 + i]);
        i = i + 1;
    }
    true
}

/// The renames that concern Gren modules, in order; every URI must parse as
/// a URL, the first that does not refuses the whole operation.
pub open spec fn gren_renames(files: Seq<FileRename>) -> Result<Seq<FileRename>, WorkspaceProtocolError>
    decreases files.len(),
{
    if files.len() == 0 {
        Ok(Seq::empty())
    } else {
        match gren_renames(files.drop_last()) {
            Ok(r) => {
                let f = files.last();
                if url_path_of(f.old_uri@) is None {
                    Err(WorkspaceProtocolError::InvalidOldUri)
                } else if url_path_of(f.new_uri@) is None {
                    Err(WorkspaceProtocolError::InvalidNewUri)
                } else if gren_file(f.old_uri@) {
                    Ok(r.push(f))
                } else {
                    Ok(r)
                }
            },
            Err(e) => Err(e),
        }
    }
}

/// A will-rename request is refused exactly when some old or new URI does
/// not parse as a URL; otherwise the renames kept are, in order, those whose
/// old URI names a Gren file.
pub proof fn law_gren_renames_kept(files: Seq<FileRename>)
    ensures
        gren_renames(files) is Err <==> exists|i: int|
            0 <= i < files.len() && (url_path_of((#[trigger] files[i]).old_uri@) is None || url_path_of(
                files[i].new_uri@,
            ) is None),
        gren_renames(files) is Ok ==> gren_renames(files) == Ok::<Seq<FileRename>, WorkspaceProtocolError>(
            files.filter(|f: FileRename| gren_file(f.old_uri@)),
        ),
    decreases files.len(),
{
    reveal_with_fuel(Seq::filter, 1);
    if files.len() > 0 {
        let t = files.drop_last();
        law_gren_renames_kept(t);
        assert forall|i: int| 0 <= i < t.len() implies t[i] == files[i] by {}
        if gren_renames(files) is Err && gren_renames(t) is Ok {
            assert(url_path_of(files[files.len() - 1].old_uri@) is None || url_path_of(
                files[files.len() - 1].new_uri@,
            ) is None);
        }
        if gren_renames(t) is Err {
            let i = choose|i: int|
                0 <= i < t.len() && (url_path_of((#[trigger] t[i]).old_uri@) is None || url_path_of(
                    t[i].new_uri@,
                ) is None);
            assert(files[i] == t[i]);
        }
        if exists|i: int|
            0 <= i < files.len() && (url_path_of((#[trigger] files[i]).old_uri@) is None || url_path_of(
                files[i].new_uri@,
            ) is None) {
            let i = choose|i: int|
                0 <= i < files.len() && (url_path_of((#[trigger] files[i]).old_uri@) is None || url_path_of(
                    files[i].new_uri@,
                ) is None);
            if i < t.len() {
                assert(t[i] == files[i]);
            }
        }
    } else {
        assert(files.filter(|f: FileRename| gren_file(f.old_uri@)) =~= Seq::<FileRename>::empty());
    }
}

/// The renames of a will-rename request that concern Gren modules (see
/// `gren_renames`).
#[verifier::loop_isolation(false)]
pub fn select_gren_renames(files: Vec<FileRename>) -> (r: Result<Vec<FileRename>, WorkspaceProtocolError>)
    ensures
        match gren_renames(files@) {
            Ok(s) => r matches Ok(v) && v@ == s,
            Err(e) => r == Err::<Vec<FileRename>, WorkspaceProtocolError>(e),
        },
{
    let ghost all = files@;
    let n = files.len();
    let mut rest = files;
    let mut out: Vec<FileRename> = Vec::new();
    let mut i: usize = 0;
    assert(all.take(0) =~= Seq::<FileRename>::empty());
    while rest.len() > 0
        invariant
            all.len() == n,
            0 <= i <= n,
            rest.len() == n - i,
            rest@ == all.skip(i as int),
            gren_renames(all.take(i as int)) == Ok::<Seq<FileRename>, WorkspaceProtocolError>(out@),
        decreases rest.len(),
    {
        let f = rest.remove(0);
        assert(f == all[i as int]);
        assert(rest@ =~= all.skip(i + 1));
        assert(all.take(i + 1).drop_last() =~= all.take(i as int));
        assert(all.take(i + 1).last() == f);
        if url_path(f.old_uri.as_str()).is_none() {
            proof {
                lemma_renames_settled(all, i + 1);
            }
            return Err(WorkspaceProtocolError::InvalidOldUri);
        }
        if url_path(f.new_uri.as_str()).is_none() {
            proof {
                lemma_renames_settled(all, i + 1);
            }
            return Err(WorkspaceProtocolError::InvalidNewUri);
        }
        if is_gren_file(f.old_uri.as_str()) {
            out.push(f);
        }
        i = i + 1;
    }
    assert(all.take(n as int) =~= all);
    Ok(out)
}

proof fn lemma_renames_settled(files: Seq<FileRename>, i: int)
    requires
        0 < i <= files.len(),
        gren_renames(files.take(i)) is Err,
    ensures
        gren_renames(files) == gren_renames(files.take(i)),
    decreases files.len() - i,
{
    if i < files.len() {
        assert(files.take(i + 1).drop_last() =~= files.take(i));
        lemma_renames_settled(files, i + 1);
    } else {
        assert(files.take(i) =~= files);
    }
}

/// The texts of the groups' files and their edits, as the merge leaves them.
pub open spec fn merged(files: Seq<FileEdits>) -> Seq<(Seq<char>, Seq<crate::protocol::TextEdit>)>
    decreases files.len(),
{
    if files.len() == 0 {
        Seq::empty()
    } else {
        let g = merged(files.drop_last());
        let f = files.last();
        let i = merged_index(g, f.uri@);
        if i >= 0 {
            g.update(i, (g[i].0, g[i].1 + f.edits@))
        } else {
            g.push((f.uri@, f.edits@))
        }
    }
}

/// Where the file `uri` is among merged groups, or -1.
pub open spec fn merged_index(g: Seq<(Seq<char>, Seq<crate::protocol::TextEdit>)>, uri: Seq<char>) -> int
    decreases g.len(),
{
    if g.len() == 0 {
        -1
    } else if merged_index(g.drop_last(), uri) >= 0 {
        merged_index(g.drop_last(), uri)
    } else if g.last().0 == uri {
        g.len() - 1
    } else {
        -1
    }
}

/// The files of the prepared workspace edits, one after another.
pub open spec fn all_files(edits: Seq<WorkspaceEdit>) -> Seq<FileEdits>
    decreases edits.len(),
{
    if edits.len() == 0 {
        Seq::empty()
    } else {
        all_files(edits.drop_last()) + match edits.last().changes {
            Some(c) => c@,
            None => Seq::empty(),
        }
    }
}

pub open spec fn group_views(v: Seq<FileEdits>) -> Seq<(Seq<char>, Seq<crate::protocol::TextEdit>)> {
    v.map_values(|f: FileEdits| (f.uri@, f.edits@))
}

/// The edits that the files give for `uri`, one file after another.
pub open spec fn edits_for(files: Seq<FileEdits>, uri: Seq<char>) -> Seq<crate::protocol::TextEdit>
    decreases files.len(),
{
    if files.len() == 0 {
        Seq::empty()
    } else {
        edits_for(files.drop_last(), uri) + if files.last().uri@ == uri {
            files.last().edits@
        } else {
            Seq::empty()
        }
    }
}

proof fn lemma_merged_index_found(g: Seq<(Seq<char>, Seq<crate::protocol::TextEdit>)>, uri: Seq<char>)
    ensures
        -1 <= merged_index(g, uri) < g.len(),
        merged_index(g, uri) >= 0 ==> g[merged_index(g, uri)].0 == uri,
    decreases g.len(),
{
    if g.len() > 0 {
        lemma_merged_index_found(g.drop_last(), uri);
    }
}

proof fn lemma_merged_index_same_keys(
    g1: Seq<(Seq<char>, Seq<crate::protocol::TextEdit>)>,
    g2: Seq<(Seq<char>, Seq<crate::protocol::TextEdit>)>,
    uri: Seq<char>,
)
    requires
        g1.len() == g2.len(),
        forall|i: int| 0 <= i < g1.len() ==> (#[trigger] g1[i]).0 == g2[i].0,
    ensures
        merged_index(g1, uri) == merged_index(g2, uri),
    decreases g1.len(),
{
    if g1.len() > 0 {
        assert(g1.last().0 == g2.last().0);
        lemma_merged_index_same_keys(g1.drop_last(), g2.drop_last(), uri);
    }
}

/// Merging the edits prepared for renamed files: every document gets one
/// group (the one `merged_index` finds for its URI), and the edits of a
/// document are all the edits the files give for it, in order; a document
/// no file names gets no group.
pub proof fn law_merge_collects_edits(files: Seq<FileEdits>, uri: Seq<char>)
    ensures
        forall|i: int| 0 <= i < merged(files).len() ==> merged_index(merged(files), (#[trigger] merged(files)[i]).0) == i,
        merged_index(merged(files), uri) >= 0 ==> merged(files)[merged_index(merged(files), uri)].1 == edits_for(files, uri),
        merged_index(merged(files), uri) == -1 ==> edits_for(files, uri).len() == 0,
    decreases files.len(),
{
    if files.len() > 0 {
        let prev = files.drop_last();
        let f = files.last();
        let g = merged(prev);
        let m = merged(files);
        law_merge_collects_edits(prev, uri);
        law_merge_collects_edits(prev, f.uri@);
        lemma_merged_index_found(g, uri);
        lemma_merged_index_found(g, f.uri@);
        let idx = merged_index(g, f.uri@);
        if idx >= 0 {
            assert(m == g.update(idx, (g[idx].0, g[idx].1 + f.edits@)));
            assert forall|i: int| 0 <= i < m.len() implies (#[trigger] m[i]).0 == g[i].0 by {}
            lemma_merged_index_same_keys(m, g, uri);
            assert forall|i: int| 0 <= i < m.len() implies merged_index(m, (#[trigger] m[i]).0) == i by {
                lemma_merged_index_same_keys(m, g, m[i].0);
                law_merge_collects_edits(prev, g[i].0);
                assert(g[i] == merged(prev)[i]);
            }
        } else {
            assert(m == g.push((f.uri@, f.edits@)));
            assert(m.drop_last() =~= g);
            assert forall|i: int| 0 <= i < m.len() implies merged_index(m, (#[trigger] m[i]).0) == i by {
                if i < g.len() {
                    assert(m[i] == g[i]);
                    law_merge_collects_edits(prev, g[i].0);
                    assert(g[i] == merged(prev)[i]);
                } else {
                    assert(m[i].0 == f.uri@);
                }
            }
            if merged_index(g, uri) >= 0 {
                assert(m[merged_index(g, uri)] == g[merged_index(g, uri)]);
            }
            if uri == f.uri@ {
                assert(edits_for(prev, uri) =~= Seq::<crate::protocol::TextEdit>::empty());
                assert(edits_for(files, uri) =~= f.edits@);
            }
        }
        if uri != f.uri@ {
            assert(edits_for(files, uri) =~= edits_for(prev, uri));
        }
    }
}

fn find_group(groups: &Vec<FileEdits>, uri: &str) -> (r: Option<usize>)
    ensures
        r matches Some(i) ==> i == merged_index(group_views(groups@), uri@) && i < groups@.len(),
        r is None ==> merged_index(group_views(groups@), uri@) == -1,
{
    let mut i: usize = 0;
    assert(group_views(groups@).take(0) =~= Seq::<(Seq<char>, Seq<crate::protocol::TextEdit>)>::empty());
    while i < groups.len()
        invariant
            0 <= i <= groups@.len(),
            merged_index(group_views(groups@).take(i as int), uri@) == -1,
        decreases groups.len() - i,
    {
        assert(group_views(groups@).take(i + 1).drop_last() =~= group_views(groups@).take(i as int));
        if crate::ordering::str_equal(groups[i].uri.as_str(), uri) {
            proof {
                lemma_merged_index_extends(group_views(groups@), uri@, i + 1);
            }
            return Some(i);
        }
        i = i + 1;
    }
    assert(group_views(groups@).take(groups@.len() as int) =~= group_views(groups@));
    None
}

proof fn lemma_merged_index_extends(g: Seq<(Seq<char>, Seq<crate::protocol::TextEdit>)>, uri: Seq<char>, n: int)
    requires
        0 < n <= g.len(),
        merged_index(g.take(n), uri) >= 0,
    ensures
        merged_index(g, uri) == merged_index(g.take(n), uri),
    decreases g.len() - n,
{
    if n < g.len() {
        assert(g.take(n + 1).drop_last() =~= g.take(n));
        lemma_merged_index_extends(g, uri, n + 1);
    } else {
        assert(g.take(n) =~= g);
    }
}

/// The edits prepared for each renamed file merged into one workspace edit:
/// each document once, in the order first met, with its edits in the order
/// prepared; none when there are no edits at all.
pub fn merge_rename_edits(prepared: Vec<WorkspaceEdit>) -> (r: Option<WorkspaceEdit>)
    ensures
        merged(all_files(prepared@)).len() == 0 <==> r is None,
        r matches Some(w) ==> (w.changes matches Some(c) && group_views(c@) == merged(all_files(prepared@))),
{
    let ghost all = prepared@;
    let n = prepared.len();
    let mut rest = prepared;
    let mut groups: Vec<FileEdits> = Vec::new();
    let mut i: usize = 0;
    assert(all.take(0) =~= Seq::<WorkspaceEdit>::empty());
    while rest.len() > 0
        invariant
            all.len() == n,
            0 <= i <= n,
            rest.len() == n - i,
            rest@ == all.skip(i as int),
            group_views(groups@) == merged(all_files(all.take(i as int))),
        decreases rest.len(),
    {
        let w = rest.remove(0);
        assert(w == all[i as int]);
        assert(rest@ =~= all.skip(i + 1));
        assert(all.take(i + 1).drop_last() =~= all.take(i as int));
        let ghost base = all_files(all.take(i as int));
        let files = match w.changes {
            Some(c) => c,
            None => Vec::new(),
        };
        let ghost fs = files@;
        assert(all_files(all.take(i + 1)) =~= base + fs);
        let m = files.len();
        let mut more = files;
        let mut k: usize = 0;
        assert((base + fs.take(0)) =~= base);
        while more.len() > 0
            invariant
                fs.len() == m,
                0 <= k <= m,
                more.len() == m - k,
                more@ == fs.skip(k as int),
                group_views(groups@) == merged(base + fs.take(k as int)),
            decreases more.len(),
        {
            let f = more.remove(0);
            assert(f == fs[k as int]);
            assert(more@ =~= fs.skip(k + 1));
            assert((base + fs.take(k + 1)).drop_last() =~= base + fs.take(k as int));
            assert((base + fs.take(k + 1)).last() == f);
            let ghost before = group_views(groups@);
            match find_group(&groups, f.uri.as_str()) {
                Some(j) => {
                    let mut g = groups.remove(j);
                    let mut add = f.edits;
                    let ghost old_edits = g.edits@;
                    let ghost added = add@;
                    g.edits.append(&mut add);
                    groups.insert(j, g);
                    assert(group_views(groups@) =~= before.update(j as int, (before[j as int].0, old_edits + added)));
                },
                None => {
                    groups.push(f);
                    assert(group_views(groups@) =~= before.push((f.uri@, f.edits@)));
                },
            }
            k = k + 1;
        }
        assert(fs.take(m as int) =~= fs);
        i = i + 1;
    }
    assert(all.take(n as int) =~= all);
    if groups.len() == 0 {
        None
    } else {
        Some(WorkspaceEdit { changes: Some(groups) })
    }
}

/// What a file operation pattern matches.
#[derive(Debug, Clone, Copy, PartialEq, Eq, Structural)]
pub enum FileOperationPatternKind {
    File,
    Folder,
}

/// Options of a file operation pattern.
#[derive(Debug, Clone, Copy, PartialEq, Eq, Structural)]
pub struct FileOperationPatternOptions {
    pub ignore_case: Option<bool>,
}

/// A glob pattern for file operations.
#[derive(Debug, Clone)]
pub struct FileOperationPattern {
    pub glob: String,
    pub matches: Option<FileOperationPatternKind>,
    pub options: Option<FileOperationPatternOptions>,
}

/// Which file operations the server wants to hear of.
#[derive(Debug, Clone)]
pub struct FileOperationFilter {
    pub scheme: Option<String>,
    pub pattern: FileOperationPattern,
}

/// Whether the server handles will- and did-rename of files: it does.
pub fn supports_file_operations() -> (r: bool)
    ensures
        r,
{
    true
}

/// The filters of the file operations the server registers for: Gren files
/// of file URLs, matched by case.
pub fn get_file_operation_filters() -> (r: Vec<FileOperationFilter>)
    ensures
        r@.len() == 1,
        r@[0].scheme matches Some(s) && s@ == "file"@,
        r@[0].pattern.glob@ == "**/*.gren"@,
        r@[0].pattern.matches == Some(FileOperationPatternKind::File),
        r@[0].pattern.options == Some(FileOperationPatternOptions { ignore_case: Some(false) }),
{
    let mut v: Vec<FileOperationFilter> = Vec::new();
    v.push(
        FileOperationFilter {
            scheme: Some("file".to_string()),
            pattern: FileOperationPattern {
                glob: "**/*.gren".to_string(),
                matches: Some(FileOperationPatternKind::File),
                options: Some(FileOperationPatternOptions { ignore_case: Some(false) }),
            },
        },
    );
    v
}

/// The edits prepared for the files whose preparation succeeded, in order.
pub open spec fn successes(results: Seq<Option<WorkspaceEdit>>) -> Seq<WorkspaceEdit>
    decreases results.len(),
{
    if results.len() == 0 {
        Seq::empty()
    } else {
        successes(results.drop_last()) + match results.last() {
            Some(w) => seq![w],
            None => Seq::empty(),
        }
    }
}

/// The edits of a `willRenameFiles` request: the preparations that failed
/// (`None`) add nothing; the others are merged as `merge_rename_edits`
/// merges them (see `law_merge_collects_edits`).
pub fn merge_successful_renames(results: Vec<Option<WorkspaceEdit>>) -> (r: Option<WorkspaceEdit>)
    ensures
        merged(all_files(successes(results@))).len() == 0 <==> r is None,
        r matches Some(w) ==> (w.changes matches Some(c) && group_views(c@) == merged(
            all_files(successes(results@)),
        )),
{
    let ghost all = results@;
    let n = results.len();
    let mut rest = results;
    let mut ok: Vec<WorkspaceEdit> = Vec::new();
    let mut i: usize = 0;
    assert(all.take(0) =~= Seq::<Option<WorkspaceEdit>>::empty());
    while rest.len() > 0
        invariant
            all.len() == n,
            0 <= i <= n,
            rest.len() == n - i,
            rest@ == all.skip(i as int),
            ok@ == successes(all.take(i as int)),
        decreases rest.len(),
    {
        let x = rest.remove(0);
        assert(x == all[i as int]);
        assert(rest@ =~= all.skip(i + 1));
        assert(all.take(i + 1).drop_last() =~= all.take(i as int));
        match x {
            Some(w) => {
                let ghost before = ok@;
                ok.push(w);
                assert(ok@ =~= before + seq![w]);
            },
            None => {
                assert(ok@ =~= successes(all.take(i as int)) + Seq::<WorkspaceEdit>::empty());
            },
        }
        i = i + 1;
    }
    assert(all.take(n as int) =~= all);
    merge_rename_edits(ok)
}

} // verus!

//! File moves staged in a transaction, and the file-system steps that commit
//! or roll back a transaction.  The steps are carried out by the caller, in
//! the order given.
use vstd::prelude::*;
use crate::paths::{components, components_of, is_normal, texts};
use crate::text::{chars_of, string_from_chars};
use vstd::seq_lib::lemma_flatten_concat;

verus! {

/// Manages transactional file moves.
pub struct FileOperationManager {
    /// Where staged files are kept, once chosen.
    pub staging_dir: Option<String>,
}

/// A staged operation of a transaction.
#[derive(Debug, Clone)]
pub enum StagedOperation {
    /// Move `source` to `destination`, keeping a copy at `backup_location`.
    MoveFile { source: String, destination: String, backup_location: Option<String> },
    /// A directory made while staging.
    CreateDirectory { path: String, created: bool },
}

/// A staged operation, by the texts of its paths.
pub enum OperationModel {
    MoveFile { source: Seq<char>, destination: Seq<char>, backup_location: Option<Seq<char>> },
    CreateDirectory { path: Seq<char>, created: bool },
}

impl View for StagedOperation {
    type V = OperationModel;

    open spec fn view(&self) -> OperationModel {
        match self {
            StagedOperation::MoveFile { source, destination, backup_location } => {
                OperationModel::MoveFile {
                    source: source@,
                    destination: destination@,
                    backup_location: match backup_location {
                        Some(b) => Some(b@),
                        None => None,
                    },
                }
            },
            StagedOperation::CreateDirectory { path, created } => {
                OperationModel::CreateDirectory { path: path@, created: *created }
            },
        }
    }
}

/// A transaction: an identifier and the operations staged so far, in order.
pub struct FileTransaction {
    pub transaction_id: String,
    pub staged_operations: Vec<StagedOperation>,
}

/// The models of a list of staged operations.
pub open spec fn operation_models(v: Seq<StagedOperation>) -> Seq<OperationModel> {
    v.map_values(|o: StagedOperation| o@)
}

/// One file-system step of a commit or a rollback.
#[derive(Debug, Clone)]
pub enum FileStep {
    /// Copy `from` to `to`, if `from` exists; a failure ends the commit.
    Backup { from: String, to: String },
    /// Rename `from` to `to`; a failure ends the commit.
    Move { from: String, to: String },
    /// Remove the file at `path`, if it exists; failures are ignored.
    DiscardBackup { path: String },
    /// Remove the file at `path`, if it exists; a failure ends the rollback.
    RemoveMoved { path: String },
    /// Rename `from` to `to`, if `from` exists; a failure ends the rollback.
    Restore { from: String, to: String },
    /// Remove the directory at `path` if it exists and is empty; failures are ignored.
    RemoveDirectory { path: String },
}

/// A step, by the texts of its paths.
pub enum StepModel {
    Backup(Seq<char>, Seq<char>),
    Move(Seq<char>, Seq<char>),
    DiscardBackup(Seq<char>),
    RemoveMoved(Seq<char>),
    Restore(Seq<char>, Seq<char>),
    RemoveDirectory(Seq<char>),
}

impl View for FileStep {
    type V = StepModel;

    open spec fn view(&self) -> StepModel {
        match self {
            FileStep::Backup { from, to } => StepModel::Backup(from@, to@),
            FileStep::Move { from, to } => StepModel::Move(from@, to@),
            FileStep::DiscardBackup { path } => StepModel::DiscardBackup(path@),
            FileStep::RemoveMoved { path } => StepModel::RemoveMoved(path@),
            FileStep::Restore { from, to } => StepModel::Restore(from@, to@),
            FileStep::RemoveDirectory { path } => StepModel::RemoveDirectory(path@),
        }
    }
}

pub open spec fn step_models(v: Seq<FileStep>) -> Seq<StepModel> {
    v.map_values(|s: FileStep| s@)
}

/// The steps that carry out one operation of a commit: a move is backed up,
/// then made; a created directory needs nothing.
pub open spec fn commit_steps_of(op: OperationModel) -> Seq<StepModel> {
    match op {
        OperationModel::MoveFile { source, destination, backup_location } => match backup_location {
            Some(b) => seq![StepModel::Backup(source, b), StepModel::Move(source, destination)],
            None => seq![StepModel::Move(source, destination)],
        },
        OperationModel::CreateDirectory { .. } => Seq::empty(),
    }
}

/// The backups to discard once every operation is done.
pub open spec fn discard_steps_of(op: OperationModel) -> Seq<StepModel> {
    match op {
        OperationModel::MoveFile { backup_location: Some(b), .. } => seq![StepModel::DiscardBackup(b)],
        _ => Seq::empty(),
    }
}

/// The steps that undo one operation: a moved file is removed and its backup
/// restored; a created directory is removed.
pub open spec fn rollback_steps_of(op: OperationModel) -> Seq<StepModel> {
    match op {
        OperationModel::MoveFile { source, destination, backup_location } => match backup_location {
            Some(b) => seq![StepModel::RemoveMoved(destination), StepModel::Restore(b, source)],
            None => seq![StepModel::RemoveMoved(destination)],
        },
        OperationModel::CreateDirectory { path, created } => if created {
            seq![StepModel::RemoveDirectory(path)]
        } else {
            Seq::empty()
        },
    }
}

/// The steps of a commit: each operation's steps in staging order, then the
/// backups discarded in the same order.
pub open spec fn commit_plan(ops: Seq<OperationModel>) -> Seq<StepModel> {
    ops.map_values(|o: OperationModel| commit_steps_of(o)).flatten() + ops.map_values(
        |o: OperationModel| discard_steps_of(o),
    ).flatten()
}

/// The steps of a rollback: each operation undone, the last staged first.
pub open spec fn rollback_plan(ops: Seq<OperationModel>) -> Seq<StepModel> {
    ops.reverse().map_values(|o: OperationModel| rollback_steps_of(o)).flatten()
}

/// A rollback undoes the last staged operation first: rolling back one
/// more operation runs that operation's undo steps, then the rollback of
/// the ones staged before it.  A commit carries out the operations in
/// staging order and discards their backups last: committing one more
/// operation adds its steps after those of the others, and its discarded
/// backup after theirs.
pub proof fn law_commit_and_rollback_order(ops: Seq<OperationModel>, o: OperationModel)
    ensures
        rollback_plan(ops.push(o)) == rollback_steps_of(o) + rollback_plan(ops),
        commit_plan(ops.push(o)) == ops.map_values(|x: OperationModel| commit_steps_of(x)).flatten()
            + commit_steps_of(o) + ops.map_values(|x: OperationModel| discard_steps_of(x)).flatten()
            + discard_steps_of(o),
{
    let rf = |x: OperationModel| rollback_steps_of(x);
    assert(ops.push(o).reverse() =~= seq![o] + ops.reverse());
    assert((seq![o] + ops.reverse()).map_values(rf) =~= seq![rollback_steps_of(o)] + ops.reverse().map_values(rf));
    lemma_flatten_concat(seq![rollback_steps_of(o)], ops.reverse().map_values(rf));
    seq![rollback_steps_of(o)].lemma_flatten_one_element();
    let cf = |x: OperationModel| commit_steps_of(x);
    let df = |x: OperationModel| discard_steps_of(x);
    assert(ops.push(o).map_values(cf) =~= ops.map_values(cf) + seq![commit_steps_of(o)]);
    assert(ops.push(o).map_values(df) =~= ops.map_values(df) + seq![discard_steps_of(o)]);
    lemma_flatten_concat(ops.map_values(cf), seq![commit_steps_of(o)]);
    lemma_flatten_concat(ops.map_values(df), seq![discard_steps_of(o)]);
    seq![commit_steps_of(o)].lemma_flatten_one_element();
    seq![discard_steps_of(o)].lemma_flatten_one_element();
    assert(commit_plan(ops.push(o)) =~= ops.map_values(cf).flatten() + commit_steps_of(o) + ops.map_values(df).flatten()
        + discard_steps_of(o));
}

/// `base` joined with the relative name `name`, as `Path::join` does.
pub open spec fn joined(base: Seq<char>, name: Seq<char>) -> Seq<char> {
    if base.len() > 0 && base.last() != '/' {
        base + seq!['/'] + name
    } else {
        base + name
    }
}

/// The file name of a path: its last component, when that names a file.
pub open spec fn file_name_of(p: Seq<char>) -> Option<Seq<char>> {
    let c = components_of(p);
    if c.len() > 0 && is_normal(c.last()) {
        Some(c.last())
    } else {
        None
    }
}

/// Where a transaction keeps the backup of a moved file.
pub open spec fn backup_path(temp_dir: Seq<char>, transaction_id: Seq<char>, name: Seq<char>) -> Seq<
    char,
> {
    joined(temp_dir, "gren-lsp-backup-"@ + transaction_id + seq!['-'] + name)
}

/// The record of a destination directory made while staging, if one was.
pub open spec fn created_directory_ops(created_parent: Option<String>) -> Seq<OperationModel> {
    match created_parent {
        Some(p) => seq![OperationModel::CreateDirectory { path: p@, created: true }],
        None => Seq::empty(),
    }
}

/// A lowercase hexadecimal digit.
pub open spec fn is_lower_hex_digit(c: char) -> bool {
    (('0' as u32) <= (c as u32) <= ('9' as u32)) || (('a' as u32) <= (c as u32) <= ('f' as u32))
}

/// The places of the four hyphens in the hyphenated form of a UUID.
pub open spec fn is_uuid_hyphen_place(i: int) -> bool {
    i == 8 || i == 13 || i == 18 || i == 23
}

/// The hyphenated, lowercase text of a random (version 4) UUID: groups of
/// 8, 4, 4, 4 and 12 lowercase hex digits joined by `-`, whose version
/// digit is `4` and whose variant digit is one of `8`, `9`, `a`, `b`.
pub open spec fn is_v4_uuid_text(s: Seq<char>) -> bool {
    &&& s.len() == 36
    &&& forall|i: int|
        0 <= i < 36 ==> (if is_uuid_hyphen_place(i) {
            s[i] == '-'
        } else {
            is_lower_hex_digit(#[trigger] s[i])
        })
    &&& s[14] == '4'
    &&& (s[19] == '8' || s[19] == '9' || s[19] == 'a' || s[19] == 'b')
}

/// A fresh random identifier: `uuid::Uuid::new_v4` written out by its
/// `Display`, which is the lowercase hyphenated form.  Claimed: the text has
/// that form, with the version and variant digits that `new_v4` sets.  The
/// other digits come from the random source and are left unsaid.
#[verifier::external_body]
fn new_transaction_id() -> (r: String)
    ensures
        is_v4_uuid_text(r@),
{
    uuid::Uuid::new_v4().to_string()
}

/// Why a move could not be staged.
#[derive(Debug, Clone, PartialEq, Eq, Structural)]
pub enum FileOperationError {
    /// The source path names no file.
    NoFileName,
}

fn push_all(out: &mut Vec<char>, s: &[char])
    ensures
        final(out)@ == old(out)@ + s@,
{
    let mut i: usize = 0;
    let ghost start = out@;
    while i < s.len()
        invariant
            0 <= i <= s@.len(),
            out@ == start + s@.take(i as int),
        decreases s.len() - i,
    {
        out.push(s[i]);
        i = i + 1;
        assert(out@ =~= start + s@.take(i as int));
    }
    assert(s@.take(s@.len() as int) =~= s@);
}

impl FileOperationManager {
    /// A manager with no staging directory yet.
    pub fn new() -> (r: FileOperationManager)
        ensures
            r.staging_dir is None,
    {
        FileOperationManager { staging_dir: None }
    }

    /// The staging directory, chosen inside `temp_dir` the first time it is
    /// asked for; the caller makes sure the directory exists.
    pub fn staging_dir_in(&mut self, temp_dir: &str) -> (r: String)
        ensures
            old(self).staging_dir matches Some(d) ==> r == d && final(self).staging_dir == old(
                self,
            ).staging_dir,
            old(self).staging_dir is None ==> r@ == joined(temp_dir@, "gren-lsp-staging"@)
                && final(self).staging_dir == Some(r),
    {
        match &self.staging_dir {
            Some(d) => d.clone(),
            None => {
                let mut p = chars_of(temp_dir);
                let base_len = p.len();
                if base_len > 0 && p[base_len - 1] != '/' {
                    p.push('/');
                }
                let name = chars_of("gren-lsp-staging");
                push_all(&mut p, name.as_slice());
                let s = string_from_chars(p.as_slice());
                self.staging_dir = Some(s.clone());
                s
            },
        }
    }

    /// A new transaction, with a fresh random identifier (the hyphenated text
    /// of a version 4 UUID) and nothing staged.
    pub fn begin_transaction(&self) -> (r: FileTransaction)
        ensures
            r.staged_operations@.len() == 0,
            is_v4_uuid_text(r.transaction_id@),
    {
        FileTransaction { transaction_id: new_transaction_id(), staged_operations: Vec::new() }
    }
}

impl FileTransaction {
    /// Stages the move of `source` to `destination`, once the caller has
    /// validated it.  `created_parent` is the destination's directory when the
    /// caller had to create it; `source_exists` says whether the source is
    /// there to back up, in `temp_dir`.  Fails when the source names no file.
    pub fn move_file(
        &mut self,
        source: &str,
        destination: &str,
        created_parent: Option<String>,
        source_exists: bool,
        temp_dir: &str,
    ) -> (r: Result<(), FileOperationError>)
        ensures
            source_exists && file_name_of(source@) is None ==> r is Err && *final(self)
                == *old(self),
            !(source_exists && file_name_of(source@) is None) ==> {
                let dir_ops = created_directory_ops(created_parent);
                let backup = if source_exists {
                    Some(
                        backup_path(
                            temp_dir@,
                            old(self).transaction_id@,
                            file_name_of(source@)->Some_0,
                        ),
                    )
                } else {
                    None
                };
                &&& r is Ok
                &&& final(self).transaction_id == old(self).transaction_id
                &&& operation_models(final(self).staged_operations@) == operation_models(
                    old(self).staged_operations@,
                ) + dir_ops + seq![
                    OperationModel::MoveFile {
                        source: source@,
                        destination: destination@,
                        backup_location: backup,
                    },
                ]
            },
    {
        let backup_location = if source_exists {
            let c = components(chars_of(source).as_slice());
            let n = c.len();
            if n == 0 || !crate::paths::is_normal_component(&c[n - 1]) {
                return Err(FileOperationError::NoFileName);
            }
            let mut p = chars_of(temp_dir);
            let base_len = p.len();
            if base_len > 0 && p[base_len - 1] != '/' {
                p.push('/');
            }
            let prefix = chars_of("gren-lsp-backup-");
            push_all(&mut p, prefix.as_slice());
            let id = chars_of(self.transaction_id.as_str());
            push_all(&mut p, id.as_slice());
            p.push('-');
            push_all(&mut p, c[n - 1].as_slice());
            proof {
                let name = "gren-lsp-backup-"@ + self.transaction_id@ + seq!['-'] + c@[n - 1]@;
                assert(p@ =~= joined(temp_dir@, name));
            }
            Some(string_from_chars(p.as_slice()))
        } else {
            None
        };
        let ghost before = self.staged_operations@;
        let ghost dir_ops = created_directory_ops(created_parent);
        if let Some(parent) = created_parent {
            self.staged_operations.push(StagedOperation::CreateDirectory { path: parent, created: true });
        }
        self.staged_operations.push(
            StagedOperation::MoveFile {
                source: source.to_owned(),
                destination: destination.to_owned(),
                backup_location,
            },
        );
        proof {
            assert(operation_models(self.staged_operations@) =~= operation_models(before) + dir_ops
                + seq![self.staged_operations@.last()@]);
        }
        Ok(())
    }

    /// The steps that commit the transaction.
    pub fn commit_steps(&self) -> (r: Vec<FileStep>)
        ensures
            step_models(r@) == commit_plan(operation_models(self.staged_operations@)),
    {
        let ops = &self.staged_operations;
        let ghost m = operation_models(ops@);
        let mut r: Vec<FileStep> = Vec::new();
        let mut i: usize = 0;
        while i < ops.len()
            invariant
                0 <= i <= ops@.len(),
                m == operation_models(ops@),
                step_models(r@) == m.take(i as int).map_values(
                    |o: OperationModel| commit_steps_of(o),
                ).flatten(),
            decreases ops.len() - i,
        {
            let ghost before = r@;
            match &ops[i] {
                StagedOperation::MoveFile { source, destination, backup_location } => {
                    if let Some(b) = backup_location {
                        r.push(FileStep::Backup { from: source.clone(), to: b.clone() });
                    }
                    r.push(FileStep::Move { from: source.clone(), to: destination.clone() });
                },
                StagedOperation::CreateDirectory { .. } => {},
            }
            proof {
                let f = |o: OperationModel| commit_steps_of(o);
                assert(m.take(i + 1).map_values(f) =~= m.take(i as int).map_values(f).push(
                    commit_steps_of(m[i as int]),
                ));
                m.take(i as int).map_values(f).lemma_flatten_push(commit_steps_of(m[i as int]));
                assert(step_models(r@) =~= step_models(before) + commit_steps_of(m[i as int]));
            }
            i = i + 1;
        }
        let ghost first = step_models(r@);
        assert(m.take(ops@.len() as int) =~= m);
        let mut j: usize = 0;
        while j < ops.len()
            invariant
                0 <= j <= ops@.len(),
                m == operation_models(ops@),
                first == m.map_values(|o: OperationModel| commit_steps_of(o)).flatten(),
                step_models(r@) == first + m.take(j as int).map_values(
                    |o: OperationModel| discard_steps_of(o),
                ).flatten(),
            decreases ops.len() - j,
        {
            let ghost before = r@;
            match &ops[j] {
                StagedOperation::MoveFile { backup_location: Some(b), .. } => {
                    r.push(FileStep::DiscardBackup { path: b.clone() });
                },
                _ => {},
            }
            proof {
                let f = |o: OperationModel| discard_steps_of(o);
                assert(m.take(j + 1).map_values(f) =~= m.take(j as int).map_values(f).push(
                    discard_steps_of(m[j as int]),
                ));
                m.take(j as int).map_values(f).lemma_flatten_push(discard_steps_of(m[j as int]));
                assert(step_models(r@) =~= step_models(before) + discard_steps_of(m[j as int]));
            }
            j = j + 1;
        }
        assert(m.take(ops@.len() as int) =~= m);
        r
    }

    /// The steps that roll the transaction back.
    pub fn rollback_steps(&self) -> (r: Vec<FileStep>)
        ensures
            step_models(r@) == rollback_plan(operation_models(self.staged_operations@)),
    {
        let ops = &self.staged_operations;
        let ghost m = operation_models(ops@);
        let ghost rev = m.reverse();
        let n = ops.len();
        let mut r: Vec<FileStep> = Vec::new();
        let mut i: usize = 0;
        while i < n
            invariant
                n == ops@.len(),
                0 <= i <= n,
                m == operation_models(ops@),
                rev == m.reverse(),
                step_models(r@) == rev.take(i as int).map_values(
                    |o: OperationModel| rollback_steps_of(o),
                ).flatten(),
            decreases n - i,
        {
            let ghost before = r@;
            let k = n - 1 - i;
            match &ops[k] {
                StagedOperation::MoveFile { source, destination, backup_location } => {
                    r.push(FileStep::RemoveMoved { path: destination.clone() });
                    if let Some(b) = backup_location {
                        r.push(FileStep::Restore { from: b.clone(), to: source.clone() });
                    }
                },
                StagedOperation::CreateDirectory { path, created } => {
                    if *created {
                        r.push(FileStep::RemoveDirectory { path: path.clone() });
                    }
                },
            }
            proof {
                let f = |o: OperationModel| rollback_steps_of(o);
                assert(rev[i as int] == m[k as int]);
                assert(rev.take(i + 1).map_values(f) =~= rev.take(i as int).map_values(f).push(
                    rollback_steps_of(rev[i as int]),
                ));
                rev.take(i as int).map_values(f).lemma_flatten_push(rollback_steps_of(rev[i as int]));
                assert(step_models(r@) =~= step_models(before) + rollback_steps_of(m[k as int]));
            }
            i = i + 1;
        }
        assert(rev.take(n as int) =~= rev);
        r
    }
}

} // verus!

use vstd::prelude::*;
use vstd::string::*;
use std::collections::HashMap;
use chrono::Datelike;
use crate::buckets::{bucket_day_changes, buckets_wf, day_has_name, DayChange};
use crate::snapshot::{bytes_eq, days_in_month};
use crate::text::views_of;

verus! {

#[verifier::external_type_specification]
#[verifier::external_body]
pub struct ExGitRepository(git2::Repository);

#[verifier::external_type_specification]
#[verifier::external_body]
pub struct ExGitIndex(git2::Index);

#[verifier::external_type_specification]
#[verifier::external_body]
pub struct ExGitError(git2::Error);

/// The errors the sync engine surfaces, each with the store's description.
pub enum SyncError {
    /// The repository root could not be resolved.
    Config(String),
    /// The on-disk store could not be opened, initialized or read.
    Repository(String),
    /// Reading or staging a working-tree file failed.
    Io(String),
    /// Writing a tree or commit object failed.
    Commit(String),
    /// A push was rejected or the network failed.
    Remote(String),
    /// A stored timestamp was not representable as a calendar date.
    Conversion(String),
}

impl SyncError {
    /// The description carried by the error.
    pub fn message(&self) -> (r: String)
        ensures
            r@ == (match self {
                SyncError::Config(s) => s@,
                SyncError::Repository(s) => s@,
                SyncError::Io(s) => s@,
                SyncError::Commit(s) => s@,
                SyncError::Remote(s) => s@,
                SyncError::Conversion(s) => s@,
            }),
    {
        match self {
            SyncError::Config(s) => s.clone(),
            SyncError::Repository(s) => s.clone(),
            SyncError::Io(s) => s.clone(),
            SyncError::Commit(s) => s.clone(),
            SyncError::Remote(s) => s.clone(),
            SyncError::Conversion(s) => s.clone(),
        }
    }
}

/// The calendar date, in UTC, of a count of seconds since the epoch, when
/// chrono can represent it: a function of the seconds alone.
pub uninterp spec fn civil_of(secs: i64) -> Option<(i32, u32, u32)>;

/// Relies on chrono's `DateTime::from_timestamp`, `date_naive` and the
/// `Datelike` accessors `year`, `month`, `day`: the UTC calendar date of an
/// epoch second count, `None` exactly when chrono deems the seconds out of
/// range. `Datelike` documents `month` in 1..=12 and `day` in 1..=31, and a
/// `NaiveDate` is a valid proleptic Gregorian date, so the day never
/// exceeds its month's length.
#[verifier::external_body]
fn civil_from_timestamp(secs: i64) -> (r: Option<(i32, u32, u32)>)
    ensures
        r == civil_of(secs),
        r matches Some(t) ==> 1 <= t.1 <= 12 && 1 <= t.2 <= days_in_month(
            t.0 as int,
            t.1 as int,
        ),
{
    chrono::DateTime::from_timestamp(secs, 0).map(
        |dt|
            {
                let d = dt.date_naive();
                (d.year(), d.month(), d.day())
            },
    )
}

/// Relies on git2's `Repository::init`: creates the on-disk store at
/// `path`, or reopens an existing one without destroying its history.
#[verifier::external_body]
fn repo_init(path: &str) -> (r: Result<git2::Repository, git2::Error>) {
    git2::Repository::init(path)
}

/// Relies on git2's `Repository::open`.
#[verifier::external_body]
fn repo_open(path: &str) -> (r: Result<git2::Repository, git2::Error>) {
    git2::Repository::open(path)
}

/// Relies on git2's `Error::message`: the store's description of a failure.
#[verifier::external_body]
fn git_error_message(e: &git2::Error) -> (r: String) {
    e.message().to_string()
}

/// Relies on git2's `Repository::index`: the staging index of the store.
#[verifier::external_body]
fn repo_index(repo: &git2::Repository) -> (r: Result<git2::Index, git2::Error>) {
    repo.index()
}

/// Relies on git2's `Index::add_all`: stages every working-tree file the
/// pathspec matches.
#[verifier::external_body]
fn index_add_all(index: &mut git2::Index, pathspec: &str) -> (r: Result<(), git2::Error>) {
    index.add_all([pathspec].iter(), git2::IndexAddOption::DEFAULT, None)
}

/// Relies on git2's `Index::write`: persists the staged index.
#[verifier::external_body]
fn index_write(index: &mut git2::Index) -> (r: Result<(), git2::Error>) {
    index.write()
}

/// Relies on git2's `Index::write_tree` and `Oid::as_bytes`: writes the
/// staged index as a tree object and returns its 20-byte content identity.
#[verifier::external_body]
fn index_write_tree(index: &mut git2::Index) -> (r: Result<Vec<u8>, git2::Error>)
    ensures
        r matches Ok(id) ==> id@.len() == 20,
{
    index.write_tree().map(|oid| oid.as_bytes().to_vec())
}

/// Relies on git2's `Repository::head`, `Reference::resolve`,
/// `Reference::peel_to_commit` and `Commit::id`: the 20-byte identity of the
/// head commit, or `None` while the repository has never been committed to
/// (an unreadable head reference reports `None` as well).
#[verifier::external_body]
fn head_commit_id(repo: &git2::Repository) -> (r: Result<Option<Vec<u8>>, git2::Error>)
    ensures
        r matches Ok(Some(id)) ==> id@.len() == 20,
{
    match repo.head() {
        Ok(h) => {
            let commit = h.resolve()?.peel_to_commit()?;
            Ok(Some(commit.id().as_bytes().to_vec()))
        },
        Err(_) => Ok(None),
    }
}

/// Relies on git2's `Oid::from_bytes`, `Repository::find_commit` and
/// `Commit::tree_id`: the 20-byte identity of a commit's tree.
#[verifier::external_body]
fn commit_tree_id(repo: &git2::Repository, id: &Vec<u8>) -> (r: Result<Vec<u8>, git2::Error>)
    requires
        id@.len() == 20,
    ensures
        r matches Ok(t) ==> t@.len() == 20,
{
    let oid = git2::Oid::from_bytes(id.as_slice())?;
    Ok(repo.find_commit(oid)?.tree_id().as_bytes().to_vec())
}

/// Relies on git2's `Repository::find_commit`, `Commit::time` and
/// `Time::seconds`: the committer timestamp, in seconds since the epoch.
#[verifier::external_body]
fn commit_time_seconds(repo: &git2::Repository, id: &Vec<u8>) -> (r: Result<i64, git2::Error>)
    requires
        id@.len() == 20,
{
    let oid = git2::Oid::from_bytes(id.as_slice())?;
    Ok(repo.find_commit(oid)?.time().seconds())
}

/// Relies on git2's `Repository::find_commit` and `Commit::parent_id`: the
/// 20-byte identity of a commit's first parent, `None` for the root commit.
#[verifier::external_body]
fn commit_parent_id(
    repo: &git2::Repository,
    id: &Vec<u8>,
) -> (r: Result<Option<Vec<u8>>, git2::Error>)
    requires
        id@.len() == 20,
    ensures
        r matches Ok(Some(p)) ==> p@.len() == 20,
{
    let oid = git2::Oid::from_bytes(id.as_slice())?;
    let commit = repo.find_commit(oid)?;
    match commit.parent_id(0) {
        Ok(p) => Ok(Some(p.as_bytes().to_vec())),
        Err(_) => Ok(None),
    }
}

/// Relies on git2's `Repository::find_commit`, `Commit::tree`,
/// `Repository::diff_tree_to_tree` and `DiffDelta::new_file`: the stored
/// paths on the new-file side of every delta between the two commits'
/// trees. A path whose name is not valid UTF-8 is left out.
#[verifier::external_body]
fn diff_new_paths(
    repo: &git2::Repository,
    old_id: &Vec<u8>,
    new_id: &Vec<u8>,
) -> (r: Result<Vec<String>, git2::Error>)
    requires
        old_id@.len() == 20,
        new_id@.len() == 20,
{
    let old_tree = repo.find_commit(git2::Oid::from_bytes(old_id.as_slice())?)?.tree()?;
    let new_tree = repo.find_commit(git2::Oid::from_bytes(new_id.as_slice())?)?.tree()?;
    let diff = repo.diff_tree_to_tree(Some(&old_tree), Some(&new_tree), None)?;
    Ok(
        diff.deltas().filter_map(
            |d| d.new_file().path().and_then(|p| p.to_str()).map(String::from),
        ).collect(),
    )
}

/// Relies on git2's `Repository::signature` and `Signature::name`/`email`:
/// the identity configured for the repository, as an error when none is
/// configured or it is not valid UTF-8.
#[verifier::external_body]
fn repo_identity(repo: &git2::Repository) -> (r: Result<(String, String), git2::Error>) {
    let sig = repo.signature()?;
    match (sig.name(), sig.email()) {
        (Ok(n), Ok(e)) => Ok((n.to_string(), e.to_string())),
        (Err(e), _) => Err(e),
        (_, Err(e)) => Err(e),
    }
}

/// Relies on git2's `Signature::now`, `Oid::from_bytes`,
/// `Repository::find_tree`, `Repository::find_commit` and
/// `Repository::commit`: writes a commit of the given tree with the given
/// single parent (or none), author and committer alike, updates the head to
/// it, and returns its 20-byte identity.
#[verifier::external_body]
fn create_commit(
    repo: &git2::Repository,
    tree_id: &Vec<u8>,
    parent_id: &Option<Vec<u8>>,
    name: &str,
    email: &str,
    message: &str,
) -> (r: Result<Vec<u8>, git2::Error>)
    requires
        tree_id@.len() == 20,
        parent_id matches Some(p) ==> p@.len() == 20,
    ensures
        r matches Ok(id) ==> id@.len() == 20,
{
    let sig = git2::Signature::now(name, email)?;
    let tree = repo.find_tree(git2::Oid::from_bytes(tree_id.as_slice())?)?;
    let oid = match parent_id {
        Some(p) => {
            let parent = repo.find_commit(git2::Oid::from_bytes(p.as_slice())?)?;
            repo.commit(Some("HEAD"), &sig, &sig, message, &tree, &[&parent])?
        },
        None => repo.commit(Some("HEAD"), &sig, &sig, message, &tree, &[])?,
    };
    Ok(oid.as_bytes().to_vec())
}

/// Relies on git2's `Repository::remotes` and `StringArray::iter`: the
/// names of the configured remotes, as the store lists them. A name that is
/// not valid UTF-8 is skipped, as the engine always skipped it.
#[verifier::external_body]
fn remote_names(repo: &git2::Repository) -> (r: Result<Vec<String>, git2::Error>) {
    let remotes = repo.remotes()?;
    Ok(remotes.iter().filter_map(|n| n.ok().flatten().map(String::from)).collect())
}

/// Relies on git2's `Repository::find_remote` and `Remote::push`: pushes
/// the given ref-spec to the named remote.
#[verifier::external_body]
fn push_remote(repo: &git2::Repository, name: &str, refspec: &str) -> (r: Result<
    (),
    git2::Error,
>) {
    repo.find_remote(name)?.push(&[refspec], None)
}

/// A month number is valid when it lies in the calendar range 1 through 12:
/// the history query asks its caller for one.
pub fn month_in_range(month: u32) -> (r: bool)
    ensures
        r == (1 <= month && month <= 12),
{
    1 <= month && month <= 12
}

/// The pathspec the snapshot stages: every file under the corpus root.
pub fn stage_all_pathspec() -> (s: &'static str)
    ensures
        s@ == "*"@,
{
    "*"
}

/// The fixed message every engine-generated commit carries.
pub fn auto_commit_message() -> (m: &'static str)
    ensures
        m@ == "auto commit"@,
{
    "auto commit"
}

/// The one ref-spec the engine ever pushes: the default branch to itself.
pub fn main_branch_refspec() -> (s: &'static str)
    ensures
        s@ == "refs/heads/main:refs/heads/main"@,
{
    "refs/heads/main:refs/heads/main"
}

/// The committer identity a snapshot records: the repository's configured
/// identity when the store yields one, else exactly the default fallback
/// pair. Identity resolution never fails.
pub fn resolve_identity(configured: Result<(String, String), git2::Error>) -> (r: (
    String,
    String,
))
    ensures
        configured matches Ok(p) ==> r == p,
        configured matches Err(_) ==> r.0@ == "Author Name"@ && r.1@ == "author@example.com"@,
{
    match configured {
        Ok(p) => p,
        Err(_) => (String::from_str("Author Name"), String::from_str("author@example.com")),
    }
}

/// The remotes a run pushes the default branch to: every configured remote,
/// in the order the store listed them, when a commit was made; none
/// otherwise. With no commit, or with zero remotes configured, no push is
/// attempted and the run succeeds trivially.
pub fn remotes_to_push(committed: bool, remotes: Vec<String>) -> (r: Vec<String>)
    ensures
        committed ==> r@ == remotes@,
        !committed ==> r@.len() == 0,
{
    if committed {
        remotes
    } else {
        Vec::new()
    }
}

/// The selection a visited commit undergoes during the history walk: it
/// contributes to the bucket of its date's day exactly when its timestamp
/// has a calendar date, that date falls in the queried year and month, and
/// the commit has a parent to diff against. A dateless commit is the one
/// recoverable failure: it contributes nothing and the walk goes on.
pub fn matching_day(date: Option<(i32, u32, u32)>, year: i32, month: u32, has_parent: bool) -> (r:
    Option<u32>)
    ensures
        r matches Some(d) ==> (date matches Some(t) && t.0 == year && t.1 == month && t.2 == d
            && has_parent),
        r is None ==> !(date matches Some(t) && t.0 == year && t.1 == month && has_parent),
{
    match date {
        Some(t) => {
            if t.0 == year && t.1 == month && has_parent {
                Some(t.2)
            } else {
                None
            }
        },
        None => None,
    }
}

/// The snapshot decision applied to what the store returned: commit exactly
/// when there is no head commit, or the candidate tree's content identity
/// differs from the head commit's tree identity. The exact-identity
/// comparison is the authoritative "did anything change" test.
pub fn commit_needed(head_tree: &Option<Vec<u8>>, candidate: &Vec<u8>) -> (r: bool)
    ensures
        r == (match head_tree {
            Some(h) => h@ != candidate@,
            None => true,
        }),
{
    match head_tree {
        Some(h) => !bytes_eq(h, candidate),
        None => true,
    }
}

/// Creates an empty repository at `path` if none exists. Calling it on an
/// already-initialized root reopens the store and never destroys history.
/// A failure is always a repository error.
pub fn git_init(path: &str) -> (r: Result<(), SyncError>)
    ensures
        r matches Err(e) ==> e is Repository,
{
    match repo_init(path) {
        Ok(_) => Ok(()),
        Err(e) => Err(SyncError::Repository(git_error_message(&e))),
    }
}

/// Stages the whole working tree at `path`, commits the candidate snapshot
/// only when its tree identity differs from the head commit's (always, for
/// the very first commit), with the configured identity or the default
/// fallback and the fixed message "auto commit"; after a commit, pushes the
/// default branch to every configured remote, in the order the store lists
/// them, aborting on the first failure. Returns whether a commit was made.
/// Every decision — commit or not (`commit_needed`), identity fallback
/// (`resolve_identity`), message, ref-spec and push targets
/// (`remotes_to_push`) — is a verified function with an exact contract;
/// what the store and the network do with what they are handed is theirs.
/// An error is never a configuration or a date-conversion failure.
pub fn git_add_commit_push(path: &str) -> (r: Result<bool, SyncError>)
    ensures
        r matches Err(e) ==> (e is Repository || e is Io || e is Commit || e is Remote),
{
    let repo = match repo_open(path) {
        Ok(repo) => repo,
        Err(e) => {
            return Err(SyncError::Repository(git_error_message(&e)));
        },
    };
    let mut index = match repo_index(&repo) {
        Ok(index) => index,
        Err(e) => {
            return Err(SyncError::Io(git_error_message(&e)));
        },
    };
    match index_add_all(&mut index, stage_all_pathspec()) {
        Ok(_) => (),
        Err(e) => {
            return Err(SyncError::Io(git_error_message(&e)));
        },
    }
    match index_write(&mut index) {
        Ok(_) => (),
        Err(e) => {
            return Err(SyncError::Io(git_error_message(&e)));
        },
    }
    let tree_id = match index_write_tree(&mut index) {
        Ok(t) => t,
        Err(e) => {
            return Err(SyncError::Commit(git_error_message(&e)));
        },
    };
    let head = match head_commit_id(&repo) {
        Ok(h) => h,
        Err(e) => {
            return Err(SyncError::Repository(git_error_message(&e)));
        },
    };
    let head_tree: Option<Vec<u8>> = match &head {
        Some(id) => match commit_tree_id(&repo, id) {
            Ok(t) => Some(t),
            Err(e) => {
                return Err(SyncError::Repository(git_error_message(&e)));
            },
        },
        None => None,
    };
    let committed = commit_needed(&head_tree, &tree_id);
    if committed {
        let ident = resolve_identity(repo_identity(&repo));
        match create_commit(&repo, &tree_id, &head, ident.0.as_str(), ident.1.as_str(),
            auto_commit_message()) {
            Ok(_) => (),
            Err(e) => {
                return Err(SyncError::Commit(git_error_message(&e)));
            },
        }
        let remotes = match remote_names(&repo) {
            Ok(r) => r,
            Err(e) => {
                return Err(SyncError::Remote(git_error_message(&e)));
            },
        };
        let targets = remotes_to_push(committed, remotes);
        let mut i: usize = 0;
        while i < targets.len()
            decreases targets@.len() - i,
        {
            match push_remote(&repo, targets[i].as_str(), main_branch_refspec()) {
                Ok(_) => (),
                Err(e) => {
                    return Err(SyncError::Remote(git_error_message(&e)));
                },
            }
            i = i + 1;
        }
    }
    Ok(committed)
}

/// Day-bucketed history for the repository at `path`: walks from the head
/// strictly along the parent chain (an absent head yields an empty
/// mapping); each commit the verified selection `matching_day` admits —
/// dated in the queried month, with a parent — contributes the filenames,
/// with the tracked note extension, of the paths its tree changed relative
/// to its parent's. A commit whose timestamp has no calendar date
/// contributes nothing and the walk goes on; that skip is the one
/// recoverable failure, so an error is always a repository error. Buckets
/// come sorted and duplicate-free, keyed by days the queried month has.
pub fn get_commits_by_day(path: &str, year: i32, month: u32) -> (r: Result<
    HashMap<u32, Vec<String>>,
    SyncError,
>)
    requires
        1 <= month <= 12,
    ensures
        r matches Ok(m) ==> buckets_wf(m@) && (forall|d: u32| #[trigger]
            m@.contains_key(d) ==> 1 <= d <= days_in_month(year as int, month as int)),
        r matches Err(e) ==> e is Repository,
{
    let repo = match repo_open(path) {
        Ok(repo) => repo,
        Err(e) => {
            return Err(SyncError::Repository(git_error_message(&e)));
        },
    };
    let head = match head_commit_id(&repo) {
        Ok(h) => h,
        Err(e) => {
            return Err(SyncError::Repository(git_error_message(&e)));
        },
    };
    let mut changes: Vec<DayChange> = Vec::new();
    let mut cur: Option<Vec<u8>> = head;
    // The parent chain is finite and acyclic by construction (identities are
    // content hashes), so this bound is never reached; it makes termination
    // of the walk a theorem instead of an assumption.
    let mut fuel: usize = usize::MAX;
    loop
        invariant
            cur matches Some(id) ==> id@.len() == 20,
            forall|a: int|
                0 <= a < changes@.len() ==> 1 <= (#[trigger] changes@[a]).day <= days_in_month(
                    year as int,
                    month as int,
                ),
        decreases fuel,
    {
        let id = match cur {
            Some(id) => id,
            None => {
                break;
            },
        };
        if fuel == 0 {
            return Err(SyncError::Repository(String::from_str(
                "ancestry walk did not reach a root commit",
            )));
        }
        fuel = fuel - 1;
        let secs = match commit_time_seconds(&repo, &id) {
            Ok(s) => s,
            Err(e) => {
                return Err(SyncError::Repository(git_error_message(&e)));
            },
        };
        let parent = match commit_parent_id(&repo, &id) {
            Ok(p) => p,
            Err(e) => {
                return Err(SyncError::Repository(git_error_message(&e)));
            },
        };
        let date = civil_from_timestamp(secs);
        match matching_day(date, year, month, parent.is_some()) {
            Some(day) => {
                match &parent {
                    Some(pid) => {
                        let paths = match diff_new_paths(&repo, pid, &id) {
                            Ok(p) => p,
                            Err(e) => {
                                return Err(SyncError::Repository(git_error_message(&e)));
                            },
                        };
                        changes.push(DayChange { day, paths });
                    },
                    None => {
                        proof {
                            assert(false);
                        }
                    },
                }
            },
            None => (),
        }
        cur = parent;
    }
    let m = bucket_day_changes(&changes);
    proof {
        assert forall|d: u32| m@.contains_key(d) implies 1 <= d <= days_in_month(
            year as int,
            month as int,
        ) by {
            let n = views_of(m@[d]@)[0];
            assert(views_of(m@[d]@).contains(n));
            assert(day_has_name(changes@, d, n));
            let (a, b) = choose|a: int, b: int|
                0 <= a < changes@.len() && 0 <= b < changes@[a].paths@.len() && changes@[a].day
                    == d && crate::text::is_note_name(
                    crate::text::base_name(changes@[a].paths@[b]@),
                ) && n == crate::text::base_name(changes@[a].paths@[b]@);
            assert(1 <= changes@[a].day <= days_in_month(year as int, month as int));
        }
    }
    Ok(m)
}

} // verus!

//! The version-control collaborator: local repository operations through
//! git2, and the decisions of the sync state machine.
//!
//! Everything that inspects or mutates the repository goes through small
//! trusted wrappers around single git2 calls; the logic around them — what
//! counts as a data file, when the tree is clean, which way a sync goes,
//! how a remote snapshot is read back into rows — is verified. Network
//! operations (fetch, push, clone) run as subprocesses and live with the
//! caller.

use vstd::prelude::*;
use crate::error::StoreError;
use crate::row::Row;
use crate::row::RowM;
use crate::row::TableRow;
use crate::row::row_wf;
use crate::table::ids_distinct;
use crate::table::ids_sorted;
use crate::table::map_of;
use crate::table::parse_shard_spec;
use crate::table::shard_name_matches;
use crate::table::shard_name_ok;

verus! {

#[verifier::external_type_specification]
#[verifier::external_body]
pub struct ExRepository(git2::Repository);

#[verifier::external_type_specification]
#[verifier::external_body]
pub struct ExIndex(git2::Index);

#[verifier::external_type_specification]
#[verifier::external_body]
pub struct ExCommit<'a>(git2::Commit<'a>);

#[verifier::external_type_specification]
#[verifier::external_body]
pub struct ExReference<'a>(git2::Reference<'a>);

#[verifier::external_type_specification]
#[verifier::external_body]
pub struct ExTree<'a>(git2::Tree<'a>);

#[verifier::external_type_specification]
#[verifier::external_body]
pub struct ExSignature<'a>(git2::Signature<'a>);

/// Relies on git2's `Repository::open_ext` with `NO_SEARCH`: opens the
/// repository at exactly this path, without walking parent directories.
#[verifier::external_body]
pub fn try_open_repo(path: &str) -> (r: Option<git2::Repository>) {
    git2::Repository::open_ext(
        std::path::Path::new(path),
        git2::RepositoryOpenFlags::NO_SEARCH,
        &[] as &[&str],
    ).ok()
}

/// Relies on git2's `Repository::statuses`: the paths of the entries the
/// status walk reports (entries whose path is not valid text are
/// dropped), or nothing when the walk fails.
#[verifier::external_body]
fn status_paths(repo: &git2::Repository) -> (r: Option<Vec<String>>) {
    match repo.statuses(None) {
        Ok(statuses) => Some(
            statuses.iter().filter_map(|e| e.path().ok().map(|p| p.to_string())).collect(),
        ),
        Err(_) => None,
    }
}

/// The position of the last slash in a path, or -1 when there is none.
pub open spec fn last_slash(path: Seq<char>) -> int
    decreases path.len(),
{
    if path.len() == 0 {
        -1
    } else if path.last() == '/' {
        path.len() - 1
    } else {
        last_slash(path.drop_last())
    }
}

/// Whether a path names a shard data file: a file inside a table
/// directory whose name matches `items_<prefix>.jsonl` — the only files
/// the sync layer stages or checks for cleanliness.
pub open spec fn is_data_file_spec(path: Seq<char>) -> bool {
    last_slash(path) >= 0 && shard_name_matches(path.skip(last_slash(path) + 1))
}

/// When every character from `k` on is a non-slash and a slash sits just
/// before `k` (or the path starts there), the last slash is at `k - 1`.
proof fn lemma_last_slash_run(path: Seq<char>, k: int)
    requires
        0 <= k <= path.len(),
        forall|q: int| k <= q < path.len() ==> path[q] != '/',
        k == 0 || path[k - 1] == '/',
    ensures
        last_slash(path) == k - 1,
    decreases path.len(),
{
    if k < path.len() {
        assert(path.last() != '/');
        let dl = path.drop_last();
        assert(forall|q: int| k <= q < dl.len() ==> dl[q] == #[trigger] path[q]);
        if k > 0 {
            assert(dl[k - 1] == path[k - 1]);
        }
        lemma_last_slash_run(dl, k);
    }
}

/// Decide whether a path names a shard data file.
pub fn is_data_file(path: &str) -> (r: bool)
    ensures
        r == is_data_file_spec(path@),
{
    let n = path.unicode_len();
    // Scan backwards to the character after the last slash.
    let mut k: usize = n;
    while k > 0 && path.get_char(k - 1) != '/'
        invariant
            k <= n,
            n == path@.len(),
            forall|q: int| k <= q < n ==> path@[q] != '/',
        decreases k,
    {
        k = k - 1;
    }
    proof {
        lemma_last_slash_run(path@, k as int);
    }
    if k == 0 {
        return false;
    }
    let base = path.substring_char(k, n);
    proof {
        assert(base@ == path@.skip(k as int));
    }
    shard_name_ok(base)
}

/// Whether none of the reported paths is a shard data file.
pub fn paths_clean(paths: &Vec<String>) -> (r: bool)
    ensures
        r == forall|i: int|
            0 <= i < paths.deep_view().len() ==> !is_data_file_spec(
                #[trigger] paths.deep_view()[i],
            ),
{
    let mut i: usize = 0;
    while i < paths.len()
        invariant
            i <= paths.len(),
            forall|k: int|
                0 <= k < i ==> !is_data_file_spec(#[trigger] paths.deep_view()[k]),
        decreases paths.len() - i,
    {
        proof {
            assert(paths.deep_view()[i as int] == paths@[i as int]@);
        }
        if is_data_file(paths[i].as_str()) {
            return false;
        }
        i = i + 1;
    }
    true
}

/// Whether the working tree is clean with respect to shard files. Only
/// what the status walk reports decides; other files are ignored.
pub fn is_clean(repo: &git2::Repository) -> (r: Result<bool, StoreError>)
    ensures
        match r {
            Ok(_) => true,
            Err(e) => e matches StoreError::IoError { .. },
        },
{
    match status_paths(repo) {
        Some(paths) => Ok(paths_clean(&paths)),
        None => Err(
            StoreError::IoError { detail: String::from_str("failed to get repo status") },
        ),
    }
}

/// Refuse to run on a working tree with uncommitted shard changes.
pub fn ensure_clean(repo: &git2::Repository) -> (r: Result<(), StoreError>)
    ensures
        match r {
            Ok(_) => true,
            Err(e) => e matches StoreError::DirtyTree || e matches StoreError::IoError { .. },
        },
{
    match is_clean(repo) {
        Ok(clean) => {
            if clean {
                Ok(())
            } else {
                Err(StoreError::DirtyTree)
            }
        },
        Err(e) => Err(e),
    }
}

/// Relies on git2's `Repository::index`.
#[verifier::external_body]
fn repo_index(repo: &git2::Repository) -> (r: Option<git2::Index>) {
    repo.index().ok()
}

/// Relies on git2's `Index::add_all` with the shard glob: stages every
/// file matching `*/items_*.jsonl`.
#[verifier::external_body]
fn index_add_data_files(index: &mut git2::Index) -> (r: bool) {
    index.add_all(["*/items_*.jsonl"], git2::IndexAddOption::DEFAULT, None).is_ok()
}

/// Relies on git2's `Index::iter`: the paths of all index entries.
#[verifier::external_body]
fn index_paths(index: &git2::Index) -> (r: Vec<String>) {
    index.iter().map(|e| String::from_utf8_lossy(&e.path).to_string()).collect()
}

/// Relies on git2's `Repository::workdir` and `Path::exists`: whether the
/// file exists in the working tree.
#[verifier::external_body]
fn workdir_file_exists(repo: &git2::Repository, path: &str) -> (r: bool) {
    match repo.workdir() {
        Some(dir) => dir.join(path).exists(),
        None => false,
    }
}

/// Relies on git2's `Index::remove_path`.
#[verifier::external_body]
fn index_remove_path(index: &mut git2::Index, path: &str) -> (r: bool) {
    index.remove_path(std::path::Path::new(path)).is_ok()
}

/// Relies on git2's `Index::write`.
#[verifier::external_body]
fn index_write(index: &mut git2::Index) -> (r: bool) {
    index.write().is_ok()
}

/// Relies on git2's `Index::write_tree`: the object id of the staged
/// tree, as bytes.
#[verifier::external_body]
fn index_write_tree(index: &mut git2::Index) -> (r: Option<Vec<u8>>) {
    index.write_tree().ok().map(|oid| oid.as_bytes().to_vec())
}

/// Relies on git2's `Repository::find_tree`.
#[verifier::external_body]
fn find_tree<'a>(repo: &'a git2::Repository, oid: &Vec<u8>) -> (r: Option<git2::Tree<'a>>) {
    match git2::Oid::from_bytes(oid.as_slice()) {
        Ok(o) => repo.find_tree(o).ok(),
        Err(_) => None,
    }
}

/// Relies on git2's `Repository::signature`: the configured author, as
/// name and email when each is valid text.
#[verifier::external_body]
fn sig_info(repo: &git2::Repository) -> (r: (Option<String>, Option<String>)) {
    match repo.signature() {
        Ok(sig) => (
            sig.name().ok().map(|s| s.to_string()),
            sig.email().ok().map(|s| s.to_string()),
        ),
        Err(_) => (None, None),
    }
}

/// Relies on git2's `Signature::now`.
#[verifier::external_body]
fn signature_now(name: &str, email: &str) -> (r: Option<git2::Signature<'static>>) {
    git2::Signature::now(name, email).ok()
}

/// The commit author: the repository's configured identity, with a
/// default name and address standing in for whatever is missing.
fn signature(repo: &git2::Repository) -> (r: Option<git2::Signature<'static>>) {
    let (name, email) = sig_info(repo);
    let name_s = match name {
        Some(n) => n,
        None => String::from_str("blogtato"),
    };
    let email_s = match email {
        Some(e) => e,
        None => String::from_str("blogtato@localhost"),
    };
    signature_now(name_s.as_str(), email_s.as_str())
}

/// Relies on git2's `Repository::head`.
#[verifier::external_body]
fn repo_head<'a>(repo: &'a git2::Repository) -> (r: Option<git2::Reference<'a>>) {
    repo.head().ok()
}

/// Relies on git2's `Reference::peel_to_commit`.
#[verifier::external_body]
fn peel_to_commit<'a>(reference: &git2::Reference<'a>) -> (r: Option<git2::Commit<'a>>) {
    reference.peel_to_commit().ok()
}

/// Relies on git2's `Commit::id`: the commit's object id as bytes.
#[verifier::external_body]
fn commit_id(commit: &git2::Commit) -> (r: Vec<u8>) {
    commit.id().as_bytes().to_vec()
}

/// Relies on git2's `Reference::shorthand`: the branch name HEAD is on,
/// when it is valid text.
#[verifier::external_body]
fn reference_shorthand(reference: &git2::Reference) -> (r: Option<String>) {
    reference.shorthand().ok().map(|s| s.to_string())
}

/// Relies on git2's `Repository::find_reference`.
#[verifier::external_body]
fn find_reference<'a>(repo: &'a git2::Repository, name: &str) -> (r: Option<
    git2::Reference<'a>,
>) {
    repo.find_reference(name).ok()
}

/// Relies on git2's `Repository::graph_descendant_of`: whether the first
/// commit is a descendant of the second; a failed walk counts as no.
#[verifier::external_body]
fn graph_descendant_of(repo: &git2::Repository, a: &Vec<u8>, b: &Vec<u8>) -> (r: bool) {
    match (git2::Oid::from_bytes(a.as_slice()), git2::Oid::from_bytes(b.as_slice())) {
        (Ok(oa), Ok(ob)) => repo.graph_descendant_of(oa, ob).unwrap_or(false),
        _ => false,
    }
}

/// Relies on git2's `Repository::commit` with HEAD as the updated
/// reference.
#[verifier::external_body]
fn create_commit(
    repo: &git2::Repository,
    sig: &git2::Signature<'static>,
    message: &str,
    tree: &git2::Tree,
    parents: &Vec<&git2::Commit>,
) -> (r: bool) {
    repo.commit(Some("HEAD"), sig, sig, message, tree, parents.as_slice()).is_ok()
}

/// Relies on git2's `Commit::tree`.
#[verifier::external_body]
fn commit_tree<'a>(commit: &git2::Commit<'a>) -> (r: Option<git2::Tree<'a>>) {
    commit.tree().ok()
}

/// Relies on git2's tree lookup and peeling: the named subdirectory of a
/// tree, when it exists and is a directory.
#[verifier::external_body]
fn tree_subtree<'a>(repo: &'a git2::Repository, tree: &git2::Tree, name: &str) -> (r: Option<
    git2::Tree<'a>,
>) {
    match tree.get_name(name) {
        Some(entry) => match entry.to_object(repo) {
            Ok(obj) => obj.peel_to_tree().ok(),
            Err(_) => None,
        },
        None => None,
    }
}

/// One entry of a remote table directory: the file's name and its
/// contents, when the entry is a text blob.
pub struct RemoteFile {
    pub name: String,
    pub content: Option<String>,
}

/// The model of a remote table entry.
pub struct RemoteFileM {
    pub name: Seq<char>,
    pub content: Option<Seq<char>>,
}

impl View for RemoteFile {
    type V = RemoteFileM;

    open spec fn view(&self) -> RemoteFileM {
        RemoteFileM {
            name: self.name@,
            content: match self.content {
                Some(c) => Some(c@),
                None => None,
            },
        }
    }
}

impl DeepView for RemoteFile {
    type V = RemoteFileM;

    open spec fn deep_view(&self) -> RemoteFileM {
        self@
    }
}

/// Relies on git2's tree iteration and blob peeling: each entry's name
/// with its contents when the entry is a text blob.
#[verifier::external_body]
fn tree_text_files(repo: &git2::Repository, tree: &git2::Tree) -> (r: Vec<RemoteFile>) {
    tree.iter().map(
        |entry| {
            let name = entry.name().unwrap_or("").to_string();
            let content = match entry.to_object(repo) {
                Ok(obj) => match obj.peel_to_blob() {
                    Ok(blob) => std::str::from_utf8(blob.content()).ok().map(
                        |s| s.to_string(),
                    ),
                    Err(_) => None,
                },
                Err(_) => None,
            };
            RemoteFile { name, content }
        },
    ).collect()
}

/// Stage the shard files and commit them, if anything changed: the
/// snapshot step after a successful save. Stages exactly the files
/// matching the shard glob, removes index entries whose files are gone
/// from disk, and creates a commit only when the tree is dirty.
pub fn auto_commit(repo: &git2::Repository, message: &str) -> (r: Result<(), StoreError>)
    ensures
        match r {
            Ok(_) => true,
            Err(e) => e matches StoreError::IoError { .. },
        },
{
    match is_clean(repo) {
        Ok(clean) => {
            if clean {
                return Ok(());
            }
        },
        Err(e) => {
            return Err(e);
        },
    }
    let mut index = match repo_index(repo) {
        Some(i) => i,
        None => {
            return Err(
                StoreError::IoError { detail: String::from_str("failed to open index") },
            );
        },
    };
    if !index_add_data_files(&mut index) {
        return Err(StoreError::IoError { detail: String::from_str("failed to stage files") });
    }
    // Remove index entries whose data files no longer exist on disk, so
    // that deleted shards leave the snapshot too.
    let entries = index_paths(&index);
    let mut i: usize = 0;
    while i < entries.len()
        decreases entries.len() - i,
    {
        let path = &entries[i];
        if is_data_file(path.as_str()) && !workdir_file_exists(repo, path.as_str()) {
            if !index_remove_path(&mut index, path.as_str()) {
                return Err(
                    StoreError::IoError {
                        detail: String::from_str("failed to remove stale index entry"),
                    },
                );
            }
        }
        i = i + 1;
    }
    if !index_write(&mut index) {
        return Err(StoreError::IoError { detail: String::from_str("failed to write index") });
    }
    let tree_oid = match index_write_tree(&mut index) {
        Some(oid) => oid,
        None => {
            return Err(
                StoreError::IoError { detail: String::from_str("failed to write tree") },
            );
        },
    };
    let tree = match find_tree(repo, &tree_oid) {
        Some(t) => t,
        None => {
            return Err(
                StoreError::IoError { detail: String::from_str("failed to find tree") },
            );
        },
    };
    let sig = match signature(repo) {
        Some(s) => s,
        None => {
            return Err(
                StoreError::IoError { detail: String::from_str("failed to build signature") },
            );
        },
    };
    let head = repo_head(repo);
    let parent = match &head {
        Some(h) => peel_to_commit(h),
        None => None,
    };
    let mut parents: Vec<&git2::Commit> = Vec::new();
    match &parent {
        Some(c) => {
            parents.push(c);
        },
        None => {},
    }
    if create_commit(repo, &sig, message, &tree, &parents) {
        Ok(())
    } else {
        Err(StoreError::IoError { detail: String::from_str("failed to create commit") })
    }
}

/// Find the remote tracking branch for origin: the local branch's remote
/// first, then the common default names.
fn find_remote_ref<'a>(repo: &'a git2::Repository) -> (r: Option<git2::Reference<'a>>) {
    match repo_head(repo) {
        Some(head) => {
            match reference_shorthand(&head) {
                Some(branch) => {
                    let mut name = String::new();
                    crate::text::push_str(&mut name, "refs/remotes/origin/");
                    crate::text::push_str(&mut name, branch.as_str());
                    match find_reference(repo, name.as_str()) {
                        Some(r) => {
                            return Some(r);
                        },
                        None => {},
                    }
                },
                None => {},
            }
        },
        None => {},
    }
    match find_reference(repo, "refs/remotes/origin/main") {
        Some(r) => {
            return Some(r);
        },
        None => {},
    }
    find_reference(repo, "refs/remotes/origin/master")
}

/// Whether a remote tracking branch exists.
pub fn has_remote_branch(repo: &git2::Repository) -> (r: bool) {
    match find_remote_ref(repo) {
        Some(_) => true,
        None => false,
    }
}

/// Which way a sync goes, once local and remote heads are known.
#[derive(Clone, Copy, Debug, PartialEq, Eq, Structural)]
pub enum SyncClass {
    /// HEAD and the remote point at the same commit: nothing to do.
    UpToDate,
    /// The remote is a strict ancestor of HEAD: push, no merge needed.
    LocalAhead,
    /// The histories diverged: merge remote data, record a merge commit,
    /// push.
    Diverged,
}

/// The sync classification: equal heads are up to date, a remote that is
/// a strict ancestor means the local side is ahead, anything else has
/// diverged.
pub open spec fn classify_spec(
    head: Seq<u8>,
    remote: Seq<u8>,
    remote_is_ancestor: bool,
) -> SyncClass {
    if head == remote {
        SyncClass::UpToDate
    } else if remote_is_ancestor {
        SyncClass::LocalAhead
    } else {
        SyncClass::Diverged
    }
}

/// Whether two object ids are the same bytes.
fn bytes_eq(a: &Vec<u8>, b: &Vec<u8>) -> (r: bool)
    ensures
        r == (a@ == b@),
{
    if a.len() != b.len() {
        proof {
            assert(a@ != b@);
        }
        return false;
    }
    let mut i: usize = 0;
    while i < a.len()
        invariant
            i <= a.len(),
            a@.len() == b@.len(),
            forall|k: int| 0 <= k < i ==> a@[k] == b@[k],
        decreases a.len() - i,
    {
        if a[i] != b[i] {
            proof {
                if a@ == b@ {
                    assert(a@[i as int] == b@[i as int]);
                }
            }
            return false;
        }
        i = i + 1;
    }
    proof {
        assert(a@ =~= b@);
    }
    true
}

/// Classify a sync from the two commit ids and the ancestry test.
pub fn classify(head: &Vec<u8>, remote: &Vec<u8>, remote_is_ancestor: bool) -> (r: SyncClass)
    ensures
        r == classify_spec(head@, remote@, remote_is_ancestor),
{
    if bytes_eq(head, remote) {
        SyncClass::UpToDate
    } else if remote_is_ancestor {
        SyncClass::LocalAhead
    } else {
        SyncClass::Diverged
    }
}

/// The id of the commit HEAD points at, if any.
pub fn head_id(repo: &git2::Repository) -> (r: Option<Vec<u8>>) {
    match repo_head(repo) {
        Some(head) => match peel_to_commit(&head) {
            Some(c) => Some(commit_id(&c)),
            None => None,
        },
        None => None,
    }
}

/// The id of the commit the remote tracking branch points at, if any.
pub fn remote_id(repo: &git2::Repository) -> (r: Option<Vec<u8>>) {
    match find_remote_ref(repo) {
        Some(r) => match peel_to_commit(&r) {
            Some(c) => Some(commit_id(&c)),
            None => None,
        },
        None => None,
    }
}

/// Whether HEAD and the remote tracking branch point at the same commit;
/// no remote branch counts as not up to date.
pub fn is_up_to_date(repo: &git2::Repository) -> (r: Result<bool, StoreError>)
    ensures
        match r {
            Ok(_) => true,
            Err(e) => e matches StoreError::IoError { .. },
        },
{
    let head = match head_id(repo) {
        Some(h) => h,
        None => {
            return Err(StoreError::IoError { detail: String::from_str("no HEAD") });
        },
    };
    match remote_id(repo) {
        Some(remote) => Ok(classify(&head, &remote, false) == SyncClass::UpToDate),
        None => Ok(false),
    }
}

/// Whether the remote tracking branch is a strict ancestor of HEAD, so
/// that pushing suffices; equal heads and a missing remote count as no.
pub fn is_remote_ancestor(repo: &git2::Repository) -> (r: Result<bool, StoreError>)
    ensures
        match r {
            Ok(_) => true,
            Err(e) => e matches StoreError::IoError { .. },
        },
{
    let head = match head_id(repo) {
        Some(h) => h,
        None => {
            return Err(StoreError::IoError { detail: String::from_str("no HEAD") });
        },
    };
    let remote = match remote_id(repo) {
        Some(r) => r,
        None => {
            return Ok(false);
        },
    };
    let anc = graph_descendant_of(repo, &head, &remote);
    Ok(classify(&head, &remote, anc) == SyncClass::LocalAhead)
}

/// Record the already-reconciled state as a merge: a commit with HEAD's
/// tree and both HEAD and the remote as parents. Nothing happens when the
/// remote is missing or already an ancestor.
pub fn merge_ours(repo: &git2::Repository) -> (r: Result<(), StoreError>)
    ensures
        match r {
            Ok(_) => true,
            Err(e) => e matches StoreError::IoError { .. },
        },
{
    let remote_ref = match find_remote_ref(repo) {
        Some(r) => r,
        None => {
            return Ok(());
        },
    };
    let head = match repo_head(repo) {
        Some(h) => h,
        None => {
            return Err(StoreError::IoError { detail: String::from_str("no HEAD") });
        },
    };
    let head_commit = match peel_to_commit(&head) {
        Some(c) => c,
        None => {
            return Err(
                StoreError::IoError { detail: String::from_str("failed to peel HEAD") },
            );
        },
    };
    let remote_commit = match peel_to_commit(&remote_ref) {
        Some(c) => c,
        None => {
            return Err(
                StoreError::IoError { detail: String::from_str("failed to peel remote ref") },
            );
        },
    };
    let hid = commit_id(&head_commit);
    let rid = commit_id(&remote_commit);
    if graph_descendant_of(repo, &hid, &rid) {
        return Ok(());
    }
    let sig = match signature(repo) {
        Some(s) => s,
        None => {
            return Err(
                StoreError::IoError { detail: String::from_str("failed to build signature") },
            );
        },
    };
    let tree = match commit_tree(&head_commit) {
        Some(t) => t,
        None => {
            return Err(
                StoreError::IoError { detail: String::from_str("failed to get HEAD tree") },
            );
        },
    };
    let mut parents: Vec<&git2::Commit> = Vec::new();
    parents.push(&head_commit);
    parents.push(&remote_commit);
    if create_commit(repo, &sig, "merge remote (ours)", &tree, &parents) {
        Ok(())
    } else {
        Err(StoreError::IoError { detail: String::from_str("failed to create merge commit") })
    }
}

/// The rows a remote table directory listing holds, in entry order:
/// files that are not shard files are ignored; a shard file that is not
/// text, or holds an unreadable line, fails the read with that file's
/// name.
pub open spec fn remote_files_spec<T: TableRow>(files: Seq<RemoteFileM>) -> Result<
    Seq<RowM<T::V>>,
    Seq<char>,
>
    decreases files.len(),
{
    if files.len() == 0 {
        Ok(Seq::empty())
    } else {
        let f = files[0];
        if !shard_name_matches(f.name) {
            remote_files_spec::<T>(files.drop_first())
        } else {
            match f.content {
                Option::None => Err(f.name),
                Option::Some(c) => match parse_shard_spec::<T>(c) {
                    Option::None => Err(f.name),
                    Option::Some(rs) => match remote_files_spec::<T>(files.drop_first()) {
                        Result::Err(e) => Err(e),
                        Result::Ok(rest) => Ok(rs + rest),
                    },
                },
            }
        }
    }
}

/// Fold a remote table directory listing into one deduplicated row list,
/// later files and lines winning on duplicate identifiers. A failing
/// shard file is named in the error, prefixed with the table directory.
pub fn collect_remote_rows<T: TableRow>(table_name: &str, files: &Vec<RemoteFile>) -> (r:
    Result<Vec<Row<T>>, StoreError>)
    ensures
        match r {
            Ok(v) => remote_files_spec::<T>(files.deep_view()) is Ok && map_of::<T>(
                v.deep_view(),
            ) == map_of::<T>(remote_files_spec::<T>(files.deep_view())->Ok_0) && ids_sorted(
                v.deep_view(),
            ) && ids_distinct(v.deep_view()) && (forall|i: int|
                0 <= i < v.deep_view().len() ==> row_wf::<T>(#[trigger] v.deep_view()[i])),
            Err(e) => match e {
                StoreError::ParseError { file } => remote_files_spec::<T>(
                    files.deep_view(),
                ) is Err && file@ == table_name@ + seq!['/'] + remote_files_spec::<T>(
                    files.deep_view(),
                )->Err_0,
                _ => false,
            },
        },
{
    let ghost fall = files.deep_view();
    let mut t: crate::table::Table<T> = crate::table::Table::new();
    let ghost mut acc: Seq<RowM<T::V>> = Seq::empty();
    let mut i: usize = 0;
    proof {
        assert(fall.skip(0) =~= fall);
        assert(acc + Seq::<RowM<T::V>>::empty() =~= acc);
        assert(t.model() =~= map_of::<T>(acc));
    }
    while i < files.len()
        invariant
            i <= files.len(),
            fall == files.deep_view(),
            fall.len() == files.len(),
            t.wf(),
            t.model() == map_of::<T>(acc),
            match remote_files_spec::<T>(fall.skip(i as int)) {
                Result::Ok(rest) => remote_files_spec::<T>(fall) == Ok::<
                    Seq<RowM<T::V>>,
                    Seq<char>,
                >(acc + rest),
                Result::Err(e) => remote_files_spec::<T>(fall) == Err::<
                    Seq<RowM<T::V>>,
                    Seq<char>,
                >(e),
            },
        decreases files.len() - i,
    {
        let ghost frem = fall.skip(i as int);
        proof {
            assert(frem[0] == fall[i as int]);
            assert(fall[i as int] == files@[i as int].deep_view());
            assert(frem.drop_first() =~= fall.skip(i + 1));
        }
        let f = &files[i];
        if shard_name_ok(f.name.as_str()) {
            let content = match &f.content {
                Some(content) => content,
                None => {
                    proof {
                        assert(remote_files_spec::<T>(frem) == Err::<
                            Seq<RowM<T::V>>,
                            Seq<char>,
                        >(frem[0].name));
                    }
                    let mut file = String::new();
                    crate::text::push_str(&mut file, table_name);
                    crate::text::push_char(&mut file, '/');
                    crate::text::push_str(&mut file, f.name.as_str());
                    proof {
                        assert(file@ =~= table_name@ + seq!['/'] + f.name@);
                    }
                    return Err(StoreError::ParseError { file });
                },
            };
            proof {
                assert(frem[0].content == Some(content@));
            }
            match crate::table::parse_shard::<T>(content.as_str()) {
                Some(rows) => {
                    let ghost shard_rows = rows.deep_view();
                    let rn = rows.len();
                    let mut k: usize = 0;
                    proof {
                        assert(shard_rows.take(0) =~= Seq::<RowM<T::V>>::empty());
                        assert(acc + shard_rows.take(0) =~= acc);
                    }
                    while k < rn
                        invariant
                            k <= rn,
                            rn == rows.len(),
                            shard_rows == rows.deep_view(),
                            t.wf(),
                            t.model() == map_of::<T>(acc + shard_rows.take(k as int)),
                            forall|q: int|
                                0 <= q < shard_rows.len() ==> row_wf::<T>(
                                    #[trigger] shard_rows[q],
                                ),
                        decreases rn - k,
                    {
                        let row = rows[k].dup_row();
                        proof {
                            assert(shard_rows[k as int] == rows@[k as int].deep_view());
                        }
                        t.insert_raw(row);
                        proof {
                            let pre = acc + shard_rows.take(k as int);
                            let post = acc + shard_rows.take(k + 1);
                            assert(post.drop_last() =~= pre);
                            assert(post.last() == shard_rows[k as int]);
                            assert(map_of::<T>(post) == map_of::<T>(pre).insert(
                                shard_rows[k as int].id_of(),
                                shard_rows[k as int],
                            ));
                        }
                        k = k + 1;
                    }
                    proof {
                        assert(shard_rows.take(rn as int) =~= shard_rows);
                        assert(parse_shard_spec::<T>(content@) == Some(shard_rows));
                        match remote_files_spec::<T>(fall.skip(i + 1)) {
                            Result::Ok(rest) => {
                                assert(remote_files_spec::<T>(frem) == Ok::<
                                    Seq<RowM<T::V>>,
                                    Seq<char>,
                                >(shard_rows + rest));
                                assert(remote_files_spec::<T>(fall) == Ok::<
                                    Seq<RowM<T::V>>,
                                    Seq<char>,
                                >(acc + (shard_rows + rest)));
                                assert(acc + (shard_rows + rest) =~= (acc + shard_rows)
                                    + rest);
                            },
                            Result::Err(e) => {
                                assert(remote_files_spec::<T>(frem) == Err::<
                                    Seq<RowM<T::V>>,
                                    Seq<char>,
                                >(e));
                            },
                        }
                        acc = acc + shard_rows;
                        assert(t.model() == map_of::<T>(acc));
                    }
                },
                None => {
                    proof {
                        assert(remote_files_spec::<T>(frem) == Err::<
                            Seq<RowM<T::V>>,
                            Seq<char>,
                        >(frem[0].name));
                    }
                    let mut file = String::new();
                    crate::text::push_str(&mut file, table_name);
                    crate::text::push_char(&mut file, '/');
                    crate::text::push_str(&mut file, f.name.as_str());
                    proof {
                        assert(file@ =~= table_name@ + seq!['/'] + f.name@);
                    }
                    return Err(StoreError::ParseError { file });
                },
            }
        } else {
            proof {
                assert(remote_files_spec::<T>(frem) == remote_files_spec::<T>(
                    frem.drop_first(),
                ));
            }
        }
        i = i + 1;
    }
    proof {
        assert(fall.skip(fall.len() as int) =~= Seq::<RemoteFileM>::empty());
        assert(remote_files_spec::<T>(Seq::<RemoteFileM>::empty()) == Ok::<
            Seq<RowM<T::V>>,
            Seq<char>,
        >(Seq::empty()));
        assert(acc + Seq::<RowM<T::V>>::empty() =~= acc);
    }
    Ok(t.into_rows())
}

/// Read one table's rows from the remote tracking branch's tree: every
/// shard file under the table's directory, parsed and deduplicated by
/// `collect_remote_rows`, which carries the exact contract over the
/// listing. A missing remote branch or table directory reads as empty; a
/// remote ref that cannot be peeled or a tree that cannot be read is a
/// hard error; a failing shard file is named, table-prefixed.
pub fn read_remote_table<T: TableRow>(repo: &git2::Repository, table_name: &str) -> (r: Result<
    Vec<Row<T>>,
    StoreError,
>)
    ensures
        match r {
            Ok(rows) => ids_sorted(rows.deep_view()) && ids_distinct(rows.deep_view()) && (
            forall|i: int|
                0 <= i < rows.deep_view().len() ==> row_wf::<T>(
                    #[trigger] rows.deep_view()[i],
                )),
            Err(e) => e matches StoreError::ParseError { .. } || e matches StoreError::IoError {
                ..
            },
        },
{
    let remote_ref = match find_remote_ref(repo) {
        Some(r) => r,
        None => {
            let empty: Vec<Row<T>> = Vec::new();
            proof {
                assert(empty.deep_view() =~= Seq::<RowM<T::V>>::empty());
            }
            return Ok(empty);
        },
    };
    let commit = match peel_to_commit(&remote_ref) {
        Some(c) => c,
        None => {
            return Err(
                StoreError::IoError {
                    detail: String::from_str("failed to peel remote ref to commit"),
                },
            );
        },
    };
    let tree = match commit_tree(&commit) {
        Some(t) => t,
        None => {
            return Err(
                StoreError::IoError { detail: String::from_str("failed to get remote tree") },
            );
        },
    };
    let subtree = match tree_subtree(repo, &tree, table_name) {
        Some(t) => t,
        None => {
            let empty: Vec<Row<T>> = Vec::new();
            proof {
                assert(empty.deep_view() =~= Seq::<RowM<T::V>>::empty());
            }
            return Ok(empty);
        },
    };
    let files = tree_text_files(repo, &subtree);
    collect_remote_rows::<T>(table_name, &files)
}

} // verus!

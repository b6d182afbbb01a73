use vstd::prelude::*;
use crate::builder::{write_tree, dir_tree_hash, dir_writes, store_all};
use crate::bytes::to_bytes;
use crate::commit::{commit_tree, encode_commit, payload_of, read_commit_tree, CommitObject, User};
use crate::digest::sha1_of;
use crate::error::VcsError;
use crate::hex::{bytes_of_hex, bytes_to_hex, hex_of, hex_to_bytes, is_hash_hex, is_hash_text};
use crate::ignore::IgnoreRule;
use crate::object::{encode_object, object_payload, split_object, ObjectType};
use crate::store::ObjectStore;
use crate::table::{stored_after, ByteTable};
use crate::diff::{checkout_safety_check, classify_status, deleted_paths, first_violation, modified_paths, path_views, untracked_paths, StatusReport};
use crate::walk::{after, get_tree_files_map, tree_files, MAX_DEPTH};
use crate::history::{history, history_of, record_views, CommitRecord};
use crate::worktree::{file_views, get_work_dir_map, work_files, FileHash, WorkTree};

verus! {

/// What HEAD points at.
#[derive(Debug, Clone)]
pub enum Head {
    /// A branch, by name: commits advance it.
    Attached(Vec<u8>),
    /// A commit, by the hex text of its hash: commits are refused.
    Detached(Vec<u8>),
}

/// `main`, the branch that a new repository starts on.
pub open spec fn main_branch() -> Seq<u8> {
    seq![109u8, 97, 105, 110]
}

/// The raw hash that hex text stands for, where it is the text of a hash.
pub open spec fn raw_of(hex: Seq<u8>) -> Option<Seq<u8>> {
    if is_hash_text(hex) {
        Some(bytes_of_hex(hex))
    } else {
        None
    }
}

/// Reads the hex text of a hash as its raw bytes.
pub fn raw_hash(hex: &[u8]) -> (r: Option<Vec<u8>>)
    ensures
        match r {
            Some(v) => raw_of(hex@) == Some(v@),
            None => raw_of(hex@) is None,
        },
{
    if is_hash_hex(hex) {
        let a = hex_to_bytes(hex);
        Some(to_bytes(a.as_slice()))
    } else {
        None
    }
}

/// The commit that HEAD resolves to: the detached hash, or the attached
/// branch's hash; `None` where the branch is unborn (its ref is empty).
pub open spec fn current_commit(head: Head, branches: Map<Seq<u8>, Seq<u8>>) -> Result<
    Option<Seq<u8>>,
    VcsError,
> {
    match head {
        Head::Detached(h) => Ok(Some(h@)),
        Head::Attached(b) => if !branches.contains_key(b@) {
            Err(VcsError::UnresolvedHead)
        } else if branches[b@].len() == 0 {
            Ok(None)
        } else {
            Ok(Some(branches[b@]))
        },
    }
}

/// The raw hash of the tree that the commit with hex text `hex` records.
pub open spec fn commit_tree_of(store: Map<Seq<u8>, Seq<u8>>, hex: Seq<u8>) -> Result<Seq<u8>, VcsError> {
    match raw_of(hex) {
        None => Err(VcsError::ObjectNotFound),
        Some(raw) => if !store.contains_key(raw) {
            Err(VcsError::ObjectNotFound)
        } else {
            match object_payload(ObjectType::Commit, store[raw]) {
                None => Err(VcsError::CorruptObject),
                Some(p) => match commit_tree(p) {
                    None => Err(VcsError::CorruptObject),
                    Some(t) => match raw_of(t) {
                        None => Err(VcsError::CorruptObject),
                        Some(rt) => Ok(rt),
                    },
                },
            }
        },
    }
}

/// Reads the raw hash of the tree that a stored commit records.
pub fn tree_of_commit(store: &ObjectStore, hex: &[u8]) -> (r: Result<Vec<u8>, VcsError>)
    requires
        store.wf(),
    ensures
        match r {
            Ok(t) => commit_tree_of(store@, hex@) == Ok::<Seq<u8>, VcsError>(t@),
            Err(e) => commit_tree_of(store@, hex@) == Err::<Seq<u8>, VcsError>(e),
        },
{
    let raw = match raw_hash(hex) {
        None => {
            return Err(VcsError::ObjectNotFound);
        },
        Some(raw) => raw,
    };
    let data = store.get(raw.as_slice())?;
    let payload = split_object(ObjectType::Commit, data.as_slice())?;
    let t = match read_commit_tree(payload.as_slice()) {
        None => {
            return Err(VcsError::CorruptObject);
        },
        Some(t) => t,
    };
    match raw_hash(t.as_slice()) {
        None => Err(VcsError::CorruptObject),
        Some(rt) => Ok(rt),
    }
}

/// The files of the tree of a commit, given by hex text; none for no commit.
pub open spec fn files_of_commit(store: Map<Seq<u8>, Seq<u8>>, commit: Option<Seq<u8>>) -> Result<
    Seq<(Seq<u8>, Seq<u8>)>,
    VcsError,
> {
    match commit {
        None => Ok(seq![]),
        Some(c) => match commit_tree_of(store, c) {
            Err(e) => Err(e),
            Ok(t) => tree_files(store, seq![], t, MAX_DEPTH as nat),
        },
    }
}

fn commit_files(store: &ObjectStore, commit: &Option<Vec<u8>>) -> (r: Result<Vec<FileHash>, VcsError>)
    requires
        store.wf(),
    ensures
        match r {
            Ok(fs) => files_of_commit(store@, crate::commit::opt_view(*commit)) == Ok::<Seq<(Seq<u8>, Seq<u8>)>, VcsError>(file_views(fs@)),
            Err(e) => files_of_commit(store@, crate::commit::opt_view(*commit)) == Err::<Seq<(Seq<u8>, Seq<u8>)>, VcsError>(e),
        },
{
    match commit {
        None => {
            let v: Vec<FileHash> = Vec::new();
            assert(file_views(v@) =~= Seq::<(Seq<u8>, Seq<u8>)>::empty());
            Ok(v)
        },
        Some(c) => {
            let t = tree_of_commit(store, c.as_slice())?;
            get_tree_files_map(store, t.as_slice())
        },
    }
}

/// A file to write back: its path and its contents.
#[derive(Debug, Clone)]
pub struct RestoredFile {
    pub path: Vec<u8>,
    pub content: Vec<u8>,
}

/// The views of restored files: (path, contents) pairs.
pub open spec fn restored_views(s: Seq<RestoredFile>) -> Seq<(Seq<u8>, Seq<u8>)> {
    s.map_values(|f: RestoredFile| (f.path@, f.content@))
}

/// Each listed file with the contents of its blob.
pub open spec fn restored(store: Map<Seq<u8>, Seq<u8>>, files: Seq<(Seq<u8>, Seq<u8>)>) -> Result<
    Seq<(Seq<u8>, Seq<u8>)>,
    VcsError,
>
    decreases files.len(),
{
    if files.len() == 0 {
        Ok(seq![])
    } else if !store.contains_key(files[0].1) {
        Err(VcsError::ObjectNotFound)
    } else {
        match object_payload(ObjectType::Blob, store[files[0].1]) {
            None => Err(VcsError::CorruptObject),
            Some(c) => after(seq![(files[0].0, c)], restored(store, files.drop_first())),
        }
    }
}

/// The files that a stored tree holds, with their contents, to be written
/// below the repository root in place of what was there.
pub fn materialize_files(store: &ObjectStore, files: &[FileHash]) -> (r: Result<Vec<RestoredFile>, VcsError>)
    requires
        store.wf(),
    ensures
        match r {
            Ok(out) => restored(store@, file_views(files@)) == Ok::<Seq<(Seq<u8>, Seq<u8>)>, VcsError>(restored_views(out@)),
            Err(e) => restored(store@, file_views(files@)) == Err::<Seq<(Seq<u8>, Seq<u8>)>, VcsError>(e),
        },
{
    let ghost fs = file_views(files@);
    let mut out: Vec<RestoredFile> = Vec::new();
    let mut i: usize = 0;
    assert(fs.subrange(0, fs.len() as int) =~= fs);
    assert(restored_views(out@) =~= Seq::<(Seq<u8>, Seq<u8>)>::empty());
    proof {
        match restored(store@, fs) {
            Ok(x) => { assert(Seq::<(Seq<u8>, Seq<u8>)>::empty() + x =~= x); },
            Err(_) => {},
        }
    }
    while i < files.len()
        invariant
            store.wf(),
            i <= files@.len(),
            fs == file_views(files@),
            restored(store@, fs) == after(restored_views(out@), restored(store@, fs.subrange(i as int, fs.len() as int))),
        decreases files@.len() - i,
    {
        let ghost rest = fs.subrange(i as int, fs.len() as int);
        assert(rest.drop_first() =~= fs.subrange(i + 1, fs.len() as int));
        let f = &files[i];
        assert(rest[0] == (f.path@, f.hash@));
        let data = store.get(f.hash.as_slice())?;
        let content = crate::object::parse_blob(data.as_slice())?;
        let ghost before = restored_views(out@);
        out.push(RestoredFile { path: to_bytes(f.path.as_slice()), content });
        proof {
            assert(restored_views(out@) =~= before + seq![(f.path@, content@)]);
            match restored(store@, rest.drop_first()) {
                Ok(x) => { assert(before + (seq![(f.path@, content@)] + x) =~= restored_views(out@) + x); },
                Err(_) => {},
            }
        }
        i = i + 1;
    }
    assert(restored_views(out@) + Seq::<(Seq<u8>, Seq<u8>)>::empty() =~= restored_views(out@));
    Ok(out)
}

/// The commit that checking out `target` leads to, where the target is a
/// branch (its commit, none while unborn) or the hex text of a stored
/// object's hash; `None` where it is neither.
pub open spec fn checkout_commit(
    branches: Map<Seq<u8>, Seq<u8>>,
    store: Map<Seq<u8>, Seq<u8>>,
    target: Seq<u8>,
) -> Option<Option<Seq<u8>>> {
    if branches.contains_key(target) {
        Some(if branches[target].len() == 0 { None } else { Some(branches[target]) })
    } else if raw_of(target) is Some && store.contains_key(raw_of(target)->0) {
        Some(Some(target))
    } else {
        None
    }
}

/// Where HEAD stands after a checkout of `target` went through: attached
/// to the branch of that name, or else detached at that hash.
pub open spec fn checked_out(branches: Map<Seq<u8>, Seq<u8>>, target: Seq<u8>, head: Head) -> bool {
    if branches.contains_key(target) {
        head matches Head::Attached(b) && b@ == target
    } else {
        head matches Head::Detached(h) && h@ == target
    }
}

/// A commit from this HEAD is refused: HEAD is detached.
pub open spec fn commit_refused(head: Head) -> bool {
    head is Detached
}

/// After a checkout of a commit by its hash (a target that names no
/// branch), a commit is refused; by the contract of `commit`, it then
/// stores no object and moves no ref.
pub proof fn lemma_detached_commit_refused(branches: Map<Seq<u8>, Seq<u8>>, target: Seq<u8>, head: Head)
    requires
        !branches.contains_key(target),
        checked_out(branches, target, head),
    ensures
        commit_refused(head),
{
}

/// A repository held in memory: its object store, HEAD, and branch refs
/// (each the hex text of a commit hash, or empty while unborn).
pub struct Repository {
    pub objects: ObjectStore,
    pub head: Head,
    pub branches: ByteTable,
}

/// What a commit on `branch` writes as the parent: the branch's commit,
/// none where the ref is missing or empty.
pub open spec fn parent_on(branches: Map<Seq<u8>, Seq<u8>>, branch: Seq<u8>) -> Option<Seq<u8>> {
    if branches.contains_key(branch) && branches[branch].len() > 0 {
        Some(branches[branch])
    } else {
        None
    }
}

impl Repository {
    /// The store and the branch table are well formed.
    pub open spec fn wf(&self) -> bool {
        self.objects.wf() && self.branches.wf()
    }

    /// A new repository: no objects, HEAD attached to `main`, whose ref is
    /// empty.
    pub fn init() -> (r: Repository)
        ensures
            r.wf(),
            r.objects@ == Map::<Seq<u8>, Seq<u8>>::empty(),
            r.head matches Head::Attached(b) && b@ == main_branch(),
            r.branches@ == Map::<Seq<u8>, Seq<u8>>::empty().insert(main_branch(), seq![]),
    {
        let mut branches = ByteTable::new();
        let main: Vec<u8> = vec![109u8, 97, 105, 110];
        let empty: Vec<u8> = Vec::new();
        branches.set(main.as_slice(), empty.as_slice());
        assert(empty@ =~= Seq::<u8>::empty());
        Repository { objects: ObjectStore::new(), head: Head::Attached(main), branches }
    }

    /// The hex text of the commit that HEAD resolves to, if any.
    pub fn get_current_commit_hash(&self) -> (r: Result<Option<Vec<u8>>, VcsError>)
        requires
            self.wf(),
        ensures
            match r {
                Ok(Some(h)) => current_commit(self.head, self.branches@) == Ok::<Option<Seq<u8>>, VcsError>(Some(h@)),
                Ok(None) => current_commit(self.head, self.branches@) == Ok::<Option<Seq<u8>>, VcsError>(None),
                Err(e) => current_commit(self.head, self.branches@) == Err::<Option<Seq<u8>>, VcsError>(e),
            },
    {
        match &self.head {
            Head::Detached(h) => Ok(Some(to_bytes(h.as_slice()))),
            Head::Attached(b) => match self.branches.get(b.as_slice()) {
                None => Err(VcsError::UnresolvedHead),
                Some(v) => if v.len() == 0 {
                    Ok(None)
                } else {
                    Ok(Some(v))
                },
            },
        }
    }

    /// The raw hash of the tree of the commit that HEAD resolves to, if any.
    pub fn get_current_tree_hash(&self) -> (r: Result<Option<Vec<u8>>, VcsError>)
        requires
            self.wf(),
        ensures
            match current_commit(self.head, self.branches@) {
                Err(e) => r == Err::<Option<Vec<u8>>, VcsError>(e),
                Ok(None) => r == Ok::<Option<Vec<u8>>, VcsError>(None),
                Ok(Some(c)) => match commit_tree_of(self.objects@, c) {
                    Err(e) => r == Err::<Option<Vec<u8>>, VcsError>(e),
                    Ok(t) => r matches Ok(Some(v)) && v@ == t,
                },
            },
    {
        match self.get_current_commit_hash()? {
            None => Ok(None),
            Some(c) => {
                let t = tree_of_commit(&self.objects, c.as_slice())?;
                Ok(Some(t))
            },
        }
    }

    /// Creates branch `name` at the commit that HEAD resolves to (empty
    /// where there is none yet); fails where the branch exists.
    pub fn create_branch(&mut self, name: &[u8]) -> (r: Result<(), VcsError>)
        requires
            old(self).wf(),
        ensures
            final(self).wf(),
            final(self).objects == old(self).objects,
            final(self).head == old(self).head,
            old(self).branches@.contains_key(name@) ==> r == Err::<(), VcsError>(VcsError::BranchExists)
                && final(self).branches@ == old(self).branches@,
            !old(self).branches@.contains_key(name@) ==> match current_commit(old(self).head, old(self).branches@) {
                Err(e) => r == Err::<(), VcsError>(e) && final(self).branches@ == old(self).branches@,
                Ok(c) => r is Ok && final(self).branches@ == old(self).branches@.insert(
                    name@,
                    match c { Some(h) => h, None => seq![] },
                ),
            },
    {
        if self.branches.contains(name) {
            return Err(VcsError::BranchExists);
        }
        let current = self.get_current_commit_hash()?;
        let value: Vec<u8> = match current {
            Some(h) => h,
            None => Vec::new(),
        };
        assert(current is None ==> value@ =~= Seq::<u8>::empty());
        self.branches.set(name, value.as_slice());
        Ok(())
    }

    /// Commits the working directory on the attached branch: builds and
    /// stores its tree, stores a commit whose parent is the branch's commit
    /// (none while the branch is unborn), and moves the branch to it.
    /// Refused, with nothing changed, while HEAD is detached.
    pub fn commit(
        &mut self,
        wt: &WorkTree,
        rules: &[IgnoreRule],
        message: &[u8],
        author: &User,
        timestamp: i64,
        timezone: &[u8],
    ) -> (r: Result<Vec<u8>, VcsError>)
        requires
            old(self).wf(),
            wt.dirs@.len() > 0,
            wt.wf(),
        ensures
            final(self).wf(),
            commit_refused(old(self).head) ==> r == Err::<Vec<u8>, VcsError>(VcsError::DetachedHead) && final(self).objects@
                == old(self).objects@ && final(self).branches@ == old(self).branches@ && final(self).head == old(self).head,
            match old(self).head {
                Head::Detached(_) => true,
                Head::Attached(b) => {
                    let tree = hex_of(dir_tree_hash(*wt, rules@, 0, seq![]));
                    let bytes = encode_object(
                        ObjectType::Commit,
                        payload_of(tree, parent_on(old(self).branches@, b@), *author, *author, message@, timestamp as int, timezone@),
                    );
                    &&& r matches Ok(h) && h@ == hex_of(sha1_of(bytes)) && h@.len() == 40
                    &&& final(self).head == old(self).head
                    &&& final(self).objects@ == stored_after(
                        store_all(old(self).objects@, dir_writes(*wt, rules@, 0, seq![])),
                        sha1_of(bytes),
                        bytes,
                    )
                    &&& final(self).branches@ == old(self).branches@.insert(b@, hex_of(sha1_of(bytes)))
                },
            },
    {
        let branch = match &self.head {
            Head::Detached(_) => {
                return Err(VcsError::DetachedHead);
            },
            Head::Attached(b) => to_bytes(b.as_slice()),
        };
        let parent: Option<Vec<u8>> = match self.branches.get(branch.as_slice()) {
            Some(v) => if v.len() > 0 {
                Some(v)
            } else {
                None
            },
            None => None,
        };
        let tree_raw = write_tree(wt, rules, &mut self.objects);
        let tree = bytes_to_hex(tree_raw.as_slice());
        let c = CommitObject {
            tree_hash: tree,
            parent,
            author: User { name: to_bytes(author.name.as_slice()), email: to_bytes(author.email.as_slice()) },
            committer: User { name: to_bytes(author.name.as_slice()), email: to_bytes(author.email.as_slice()) },
            message: to_bytes(message),
            timestamp,
            timezone: to_bytes(timezone),
        };
        let bytes = encode_commit(&c);
        let h = self.objects.write_object(bytes.as_slice());
        let hex = bytes_to_hex(h.as_slice());
        self.branches.set(branch.as_slice(), hex.as_slice());
        Ok(hex)
    }

    /// Classifies the working directory against the commit that HEAD
    /// resolves to.
    pub fn status(&self, wt: &WorkTree, rules: &[IgnoreRule]) -> (r: Result<StatusReport, VcsError>)
        requires
            self.wf(),
            wt.wf(),
        ensures
            match current_commit(self.head, self.branches@) {
                Err(e) => r == Err::<StatusReport, VcsError>(e),
                Ok(c) => match files_of_commit(self.objects@, c) {
                    Err(e) => r == Err::<StatusReport, VcsError>(e),
                    Ok(cf) => r matches Ok(rep) && path_views(rep.modified@) == modified_paths(work_files(*wt), cf, rules@)
                        && path_views(rep.untracked@) == untracked_paths(work_files(*wt), cf, rules@)
                        && path_views(rep.deleted@) == deleted_paths(work_files(*wt), cf, rules@),
                },
            },
    {
        let current = self.get_current_commit_hash()?;
        let cf = commit_files(&self.objects, &current)?;
        let wf = get_work_dir_map(wt);
        Ok(classify_status(wf.as_slice(), cf.as_slice(), rules))
    }

    /// Checks out a branch or a commit: refuses a target that is neither,
    /// refuses a checkout that would overwrite an untracked file or lose a
    /// local change, and otherwise points HEAD at the target (attached for a
    /// branch, detached for a hash) and returns the target's files with
    /// their contents, which replace the working directory. Nothing changes
    /// on failure.
    pub fn checkout(&mut self, target: &[u8], wt: &WorkTree) -> (r: Result<Vec<RestoredFile>, VcsError>)
        requires
            old(self).wf(),
            wt.wf(),
        ensures
            final(self).wf(),
            final(self).objects == old(self).objects,
            final(self).branches == old(self).branches,
            r is Err ==> final(self).head == old(self).head,
            match checkout_commit(old(self).branches@, old(self).objects@, target@) {
                None => r == Err::<Vec<RestoredFile>, VcsError>(VcsError::AmbiguousOrInvalidTarget),
                Some(tc) => match current_commit(old(self).head, old(self).branches@) {
                    Err(e) => r == Err::<Vec<RestoredFile>, VcsError>(e),
                    Ok(cc) => match (files_of_commit(old(self).objects@, cc), files_of_commit(old(self).objects@, tc)) {
                        (Err(e), _) => r == Err::<Vec<RestoredFile>, VcsError>(e),
                        (Ok(_), Err(e)) => r == Err::<Vec<RestoredFile>, VcsError>(e),
                        (Ok(cf), Ok(tf)) => match first_violation(work_files(*wt), cf, tf) {
                            Some((p, why)) => r matches Err(VcsError::UnsafeCheckout { path, reason }) && path@ == p && reason == why,
                            None => match restored(old(self).objects@, tf) {
                                Err(e) => r == Err::<Vec<RestoredFile>, VcsError>(e),
                                Ok(files) => r matches Ok(out) && restored_views(out@) == files
                                    && checked_out(old(self).branches@, target@, final(self).head),
                            },
                        },
                    },
                },
            },
    {
        let is_branch = self.branches.contains(target);
        let tc: Option<Vec<u8>> = if is_branch {
            match self.branches.get(target) {
                Some(v) => if v.len() == 0 { None } else { Some(v) },
                None => None,
            }
        } else {
            match raw_hash(target) {
                Some(raw) => {
                    if self.objects.contains(raw.as_slice()) {
                        Some(to_bytes(target))
                    } else {
                        return Err(VcsError::AmbiguousOrInvalidTarget);
                    }
                },
                None => {
                    return Err(VcsError::AmbiguousOrInvalidTarget);
                },
            }
        };
        assert(checkout_commit(self.branches@, self.objects@, target@) == Some(crate::commit::opt_view(tc)));
        let current = self.get_current_commit_hash()?;
        let cf = commit_files(&self.objects, &current)?;
        let tf = commit_files(&self.objects, &tc)?;
        let wf = get_work_dir_map(wt);
        checkout_safety_check(wf.as_slice(), cf.as_slice(), tf.as_slice())?;
        let files = materialize_files(&self.objects, tf.as_slice())?;
        if is_branch {
            self.head = Head::Attached(to_bytes(target));
        } else {
            self.head = Head::Detached(to_bytes(target));
        }
        Ok(files)
    }

    /// The history from the commit that HEAD resolves to, newest first;
    /// empty before the first commit. The walk follows at most as many
    /// commits as the store holds objects, and one more.
    pub fn log(&self) -> (r: Result<Vec<CommitRecord>, VcsError>)
        requires
            self.wf(),
            self.objects.size() < usize::MAX,
        ensures
            match current_commit(self.head, self.branches@) {
                Err(e) => r == Err::<Vec<CommitRecord>, VcsError>(e),
                Ok(None) => r matches Ok(rs) && rs@.len() == 0,
                Ok(Some(c)) => match history_of(self.objects@, c, self.objects.size() + 1) {
                    Ok(x) => r matches Ok(rs) && record_views(rs@) == x,
                    Err(e) => r == Err::<Vec<CommitRecord>, VcsError>(e),
                },
            },
    {
        match self.get_current_commit_hash()? {
            None => Ok(Vec::new()),
            Some(c) => history(&self.objects, c.as_slice(), self.objects.len() + 1),
        }
    }

    /// The branches, each with whether HEAD is attached to it, in table
    /// order.
    pub fn branch(&self) -> (r: Vec<(Vec<u8>, bool)>)
        requires
            self.wf(),
        ensures
            r@.len() == self.branches.size(),
            forall|i: int| 0 <= i < r@.len() ==> self.branches@.contains_key((#[trigger] r@[i]).0@)
                && r@[i].1 == (self.head matches Head::Attached(b) && b@ == r@[i].0@),
            forall|k: Seq<u8>| #[trigger] self.branches@.contains_key(k) ==> exists|i: int| 0 <= i < r@.len() && (#[trigger] r@[i]).0@ == k,
    {
        let mut out: Vec<(Vec<u8>, bool)> = Vec::new();
        let mut i: usize = 0;
        while i < self.branches.len()
            invariant
                self.wf(),
                i <= self.branches.size(),
                out@.len() == i,
                forall|j: int| 0 <= j < out@.len() ==> self.branches@.contains_key((#[trigger] out@[j]).0@)
                    && out@[j].1 == (self.head matches Head::Attached(b) && b@ == out@[j].0@),
                forall|j: int| 0 <= j < out@.len() ==> (#[trigger] out@[j]).0@ == self.branches.key_at(j),
            decreases self.branches.size() - i,
        {
            let e = self.branches.at(i);
            let current = match &self.head {
                Head::Attached(b) => crate::bytes::same_bytes(b.as_slice(), e.key.as_slice()),
                Head::Detached(_) => false,
            };
            out.push((to_bytes(e.key.as_slice()), current));
            i = i + 1;
        }
        proof {
            assert forall|k: Seq<u8>| #[trigger] self.branches@.contains_key(k) implies exists|j: int| 0 <= j < out@.len() && (#[trigger] out@[j]).0@ == k by {
                self.branches.lemma_key_position(k);
                let j = choose|j: int| 0 <= j < self.branches.size() && #[trigger] self.branches.key_at(j) == k;
                assert(out@[j].0@ == k);
            }
        }
        out
    }
}

} // verus!

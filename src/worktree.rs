use vstd::prelude::*;
use crate::bytes::{append_bytes, same_bytes, to_bytes};
use crate::digest::sha1_of;
use crate::object::{encode_object, format_object, ObjectType};

verus! {

/// A path and the raw hash of the blob found there.
#[derive(Debug, Clone)]
pub struct FileHash {
    pub path: Vec<u8>,
    pub hash: Vec<u8>,
}

/// The view of a list of file hashes: (path, hash) pairs.
pub open spec fn file_views(s: Seq<FileHash>) -> Seq<(Seq<u8>, Seq<u8>)> {
    s.map_values(|f: FileHash| (f.path@, f.hash@))
}

/// A directory entry's path below a directory's path: the name alone at the
/// top, else the two joined by `/`.
pub open spec fn join(dir: Seq<u8>, name: Seq<u8>) -> Seq<u8> {
    if dir.len() == 0 {
        name
    } else {
        dir + seq![47u8] + name
    }
}

pub fn join_path(dir: &[u8], name: &[u8]) -> (r: Vec<u8>)
    ensures
        r@ == join(dir@, name@),
{
    if dir.len() == 0 {
        to_bytes(name)
    } else {
        let mut r = to_bytes(dir);
        r.push(47u8);
        append_bytes(&mut r, name);
        r
    }
}

/// `.rustygit`, the repository's metadata directory.
pub open spec fn meta_name() -> Seq<u8> {
    seq![46u8, 114, 117, 115, 116, 121, 103, 105, 116]
}

/// `.git`
pub open spec fn git_name() -> Seq<u8> {
    seq![46u8, 103, 105, 116]
}

/// A name that metadata directories go by; such entries are never part of
/// the working files.
pub open spec fn is_metadata(name: Seq<u8>) -> bool {
    name == meta_name() || name == git_name()
}

/// Whether an entry name is that of a metadata directory.
pub fn is_metadata_name(name: &[u8]) -> (r: bool)
    ensures
        r == is_metadata(name@),
{
    let meta: Vec<u8> = vec![46u8, 114, 117, 115, 116, 121, 103, 105, 116];
    let git: Vec<u8> = vec![46u8, 103, 105, 116];
    same_bytes(name, meta.as_slice()) || same_bytes(name, git.as_slice())
}

/// What a directory entry is: a file with its contents, or the directory at
/// an index of the arena.
#[derive(Debug, Clone)]
pub enum WorkNode {
    File(Vec<u8>),
    Dir(usize),
}

/// One entry of a directory.
#[derive(Debug, Clone)]
pub struct WorkEntry {
    pub name: Vec<u8>,
    pub node: WorkNode,
}

/// A directory: its entries, in the order they were listed.
#[derive(Debug, Clone)]
pub struct WorkDir {
    pub entries: Vec<WorkEntry>,
}

/// A working directory held in memory, as an arena of directories. The
/// root is at index 0, and a directory's subdirectories stand at greater
/// indices than its own, so that every walk ends.
#[derive(Debug, Clone)]
pub struct WorkTree {
    pub dirs: Vec<WorkDir>,
}

/// The entry at position `k` of directory `i` refers to subdirectory `j`.
pub open spec fn refers_to(wt: WorkTree, i: int, k: int, j: int) -> bool {
    0 <= i < wt.dirs@.len() && 0 <= k < wt.dirs@[i].entries@.len()
        && (wt.dirs@[i].entries@[k].node matches WorkNode::Dir(d) && d == j)
}

impl WorkTree {
    /// A well-formed working tree: every subdirectory stands after the
    /// directory that holds it, is held by one entry only, no directory
    /// holds two entries of one name, and no name holds a NUL byte.
    pub open spec fn wf(&self) -> bool {
        &&& forall|i: int, k: int|
            0 <= i < self.dirs@.len() && 0 <= k < self.dirs@[i].entries@.len() ==> !crate::bytes::has_byte(
                #[trigger] self.dirs@[i].entries@[k].name@,
                0,
            )
        &&& forall|i: int, k: int, j: int| #[trigger] refers_to(*self, i, k, j) ==> i < j < self.dirs@.len()
        &&& forall|i: int, k1: int, k2: int|
            0 <= i < self.dirs@.len() && 0 <= k1 < self.dirs@[i].entries@.len() && 0 <= k2
                < self.dirs@[i].entries@.len() && k1 != k2 ==> #[trigger] self.dirs@[i].entries@[k1].name@
                != #[trigger] self.dirs@[i].entries@[k2].name@
        &&& forall|i1: int, k1: int, i2: int, k2: int, j: int|
            #[trigger] refers_to(*self, i1, k1, j) && #[trigger] refers_to(*self, i2, k2, j) ==> i1 == i2
                && k1 == k2
    }

    /// Whether the working tree is well formed.
    pub fn is_wf(&self) -> (r: bool)
        ensures
            r == self.wf(),
    {
        let n = self.dirs.len();
        let mut held: Vec<bool> = Vec::new();
        let mut t: usize = 0;
        while t < n
            invariant
                t <= n,
                held@.len() == t,
                forall|q: int| 0 <= q < t ==> !held@[q],
            decreases n - t,
        {
            held.push(false);
            t = t + 1;
        }
        let mut i: usize = 0;
        while i < n
            invariant
                n == self.dirs@.len(),
                i <= n,
                held@.len() == n,
                // directories seen so far are well formed
                forall|a: int, k: int, j: int| #[trigger] refers_to(*self, a, k, j) && a < i ==> a < j < n,
                forall|a: int, k1: int, k2: int|
                    0 <= a < i && 0 <= k1 < self.dirs@[a].entries@.len() && 0 <= k2 < self.dirs@[a].entries@.len()
                        && k1 != k2 ==> #[trigger] self.dirs@[a].entries@[k1].name@
                        != #[trigger] self.dirs@[a].entries@[k2].name@,
                forall|a1: int, k1: int, a2: int, k2: int, j: int|
                    #[trigger] refers_to(*self, a1, k1, j) && #[trigger] refers_to(*self, a2, k2, j) && a1 < i && a2 < i
                        ==> a1 == a2 && k1 == k2,
                forall|j: int| 0 <= j < n ==> (held@[j] <==> exists|a: int, k: int| a < i && #[trigger] refers_to(*self, a, k, j)),
                forall|a: int, k: int| 0 <= a < i && 0 <= k < self.dirs@[a].entries@.len() ==> !crate::bytes::has_byte(
                    #[trigger] self.dirs@[a].entries@[k].name@, 0),
            decreases n - i,
        {
            let dir = &self.dirs[i];
            let m = dir.entries.len();
            let mut k: usize = 0;
            while k < m
                invariant
                    n == self.dirs@.len(),
                    i < n,
                    *dir == self.dirs@[i as int],
                    m == dir.entries@.len(),
                    k <= m,
                    held@.len() == n,
                    forall|a: int, kk: int, j: int| #[trigger] refers_to(*self, a, kk, j) && (a < i || (a == i && kk < k)) ==> a < j < n,
                    forall|a: int, k1: int, k2: int|
                        0 <= a < i && 0 <= k1 < self.dirs@[a].entries@.len() && 0 <= k2 < self.dirs@[a].entries@.len()
                            && k1 != k2 ==> #[trigger] self.dirs@[a].entries@[k1].name@
                            != #[trigger] self.dirs@[a].entries@[k2].name@,
                    forall|k1: int, k2: int|
                        0 <= k1 < k && 0 <= k2 < m && k1 != k2 ==> #[trigger] dir.entries@[k1].name@
                            != #[trigger] dir.entries@[k2].name@,
                    forall|a1: int, k1: int, a2: int, k2: int, j: int|
                        #[trigger] refers_to(*self, a1, k1, j) && #[trigger] refers_to(*self, a2, k2, j)
                            && (a1 < i || (a1 == i && k1 < k)) && (a2 < i || (a2 == i && k2 < k)) ==> a1 == a2 && k1 == k2,
                    forall|j: int| 0 <= j < n ==> (held@[j] <==> exists|a: int, kk: int| (a < i || (a == i && kk < k))
                        && #[trigger] refers_to(*self, a, kk, j)),
                    forall|a: int, kk: int| 0 <= a < i && 0 <= kk < self.dirs@[a].entries@.len() ==> !crate::bytes::has_byte(
                        #[trigger] self.dirs@[a].entries@[kk].name@, 0),
                    forall|kk: int| 0 <= kk < k ==> !crate::bytes::has_byte(#[trigger] dir.entries@[kk].name@, 0),
                decreases m - k,
            {
                let e = &dir.entries[k];
                let mut q: usize = 0;
                while q < m
                    invariant
                        i < self.dirs@.len(),
                        *dir == self.dirs@[i as int],
                        m == dir.entries@.len(),
                        k < m,
                        q <= m,
                        *e == dir.entries@[k as int],
                        forall|q2: int| 0 <= q2 < q && q2 != k ==> dir.entries@[q2].name@ != e.name@,
                    decreases m - q,
                {
                    if q != k && crate::bytes::same_bytes(dir.entries[q].name.as_slice(), e.name.as_slice()) {
                        assert(self.dirs@[i as int].entries@[q as int].name@ == self.dirs@[i as int].entries@[k as int].name@);
                        return false;
                    }
                    q = q + 1;
                }
                if crate::bytes::find_byte(e.name.as_slice(), 0u8).is_some() {
                    assert(crate::bytes::has_byte(self.dirs@[i as int].entries@[k as int].name@, 0));
                    return false;
                }
                match &e.node {
                    WorkNode::Dir(j) => {
                        let j = *j;
                        assert(refers_to(*self, i as int, k as int, j as int));
                        if j <= i || j >= n {
                            return false;
                        }
                        if held[j] {
                            return false;
                        }
                        held.set(j, true);
                        assert(forall|a: int, kk: int, jj: int| #[trigger] refers_to(*self, a, kk, jj) && a == i && kk == k ==> jj == j);
                    },
                    WorkNode::File(_) => {
                        assert(forall|a: int, kk: int, jj: int| !(#[trigger] refers_to(*self, a, kk, jj) && a == i && kk == k));
                    },
                }
                k = k + 1;
            }
            i = i + 1;
        }
        true
    }
}

/// The raw hash of a file's contents, stored as a blob.
pub open spec fn blob_hash(content: Seq<u8>) -> Seq<u8> {
    sha1_of(encode_object(ObjectType::Blob, content))
}

/// The files below directory `i` of the arena, each with the hash of its
/// blob, in listing order; subdirectories are walked where they stand, and
/// metadata directories are left out.
pub open spec fn dir_files(wt: WorkTree, i: int, prefix: Seq<u8>) -> Seq<(Seq<u8>, Seq<u8>)>
    decreases wt.dirs@.len() - i, 1int,
{
    if 0 <= i < wt.dirs@.len() {
        entries_files(wt, i, prefix, 0)
    } else {
        seq![]
    }
}

/// The files below the entries of directory `i` from the `k`-th on.
pub open spec fn entries_files(wt: WorkTree, i: int, prefix: Seq<u8>, k: int) -> Seq<
    (Seq<u8>, Seq<u8>),
>
    decreases wt.dirs@.len() - i, 0int, wt.dirs@[i].entries@.len() - k,
{
    if 0 <= i < wt.dirs@.len() && 0 <= k < wt.dirs@[i].entries@.len() {
        let e = wt.dirs@[i].entries@[k];
        let path = join(prefix, e.name@);
        let first = if is_metadata(e.name@) {
            seq![]
        } else {
            match e.node {
                WorkNode::File(c) => seq![(path, blob_hash(c@))],
                WorkNode::Dir(j) => if i < j && j < wt.dirs@.len() {
                    dir_files(wt, j as int, path)
                } else {
                    seq![]
                },
            }
        };
        first + entries_files(wt, i, prefix, k + 1)
    } else {
        seq![]
    }
}

/// The files of the whole working directory.
pub open spec fn work_files(wt: WorkTree) -> Seq<(Seq<u8>, Seq<u8>)> {
    dir_files(wt, 0, seq![])
}

fn blob_hash_of(content: &[u8]) -> (r: Vec<u8>)
    ensures
        r@ == blob_hash(content@),
{
    let encoded = format_object(ObjectType::Blob, content);
    crate::digest::sha1_digest(encoded.as_slice())
}

fn collect_dir(wt: &WorkTree, i: usize, prefix: &[u8], out: &mut Vec<FileHash>)
    requires
        i < wt.dirs@.len(),
    ensures
        file_views(final(out)@) == file_views(old(out)@) + dir_files(*wt, i as int, prefix@),
    decreases wt.dirs@.len() - i, 1int,
{
    let ghost start = file_views(out@);
    let dir = &wt.dirs[i];
    let mut k: usize = 0;
    assert(start + entries_files(*wt, i as int, prefix@, 0) =~= file_views(out@) + entries_files(
        *wt,
        i as int,
        prefix@,
        0,
    ));
    while k < dir.entries.len()
        invariant
            i < wt.dirs@.len(),
            *dir == wt.dirs@[i as int],
            k <= dir.entries@.len(),
            start + dir_files(*wt, i as int, prefix@) == file_views(out@) + entries_files(
                *wt,
                i as int,
                prefix@,
                k as int,
            ),
        decreases dir.entries@.len() - k,
    {
        let e = &dir.entries[k];
        let path = join_path(prefix, e.name.as_slice());
        let ghost before = file_views(out@);
        assert(*e == wt.dirs@[i as int].entries@[k as int]);
        if is_metadata_name(e.name.as_slice()) {
            assert(file_views(out@) =~= before + Seq::<(Seq<u8>, Seq<u8>)>::empty());
        } else {
        match &e.node {
            WorkNode::File(c) => {
                let h = blob_hash_of(c.as_slice());
                out.push(FileHash { path, hash: h });
                assert(file_views(out@) =~= before + seq![(join(prefix@, e.name@), blob_hash(c@))]);
            },
            WorkNode::Dir(j) => {
                if i < *j && *j < wt.dirs.len() {
                    collect_dir(wt, *j, path.as_slice(), out);
                } else {
                    assert(file_views(out@) =~= before + Seq::<(Seq<u8>, Seq<u8>)>::empty());
                }
            },
        }
        }
        assert(file_views(out@) + entries_files(*wt, i as int, prefix@, k + 1) =~= before
            + entries_files(*wt, i as int, prefix@, k as int));
        k = k + 1;
    }
    assert(file_views(out@) + entries_files(*wt, i as int, prefix@, k as int) =~= file_views(
        out@,
    ));
}

/// The working-directory map: each file's path with the hash of its
/// contents as a blob, in walk order.
pub fn get_work_dir_map(wt: &WorkTree) -> (r: Vec<FileHash>)
    requires
        wt.wf(),
    ensures
        file_views(r@) == work_files(*wt),
{
    let mut out: Vec<FileHash> = Vec::new();
    if wt.dirs.len() == 0 {
        assert(file_views(out@) =~= work_files(*wt));
        return out;
    }
    let empty: Vec<u8> = Vec::new();
    collect_dir(wt, 0, empty.as_slice(), &mut out);
    assert(file_views(out@) =~= work_files(*wt));
    out
}

} // verus!

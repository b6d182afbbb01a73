use vstd::prelude::*;
use crate::bytes::to_bytes;
use crate::commit::{commit_parent, commit_tree, opt_view, read_commit_parent, read_commit_tree};
use crate::digest::sha1_of;
use crate::error::VcsError;
use crate::hex::{hex_of, lemma_hex_round_trip};
use crate::object::{encode_object, lemma_object_round_trip, object_payload, split_object, ObjectType};
use crate::repo::{raw_hash, raw_of};
use crate::store::ObjectStore;

verus! {

/// One commit of a history: the hex text of its hash, of its tree, and of
/// its parent, if any.
#[derive(Debug, Clone)]
pub struct CommitRecord {
    pub hash: Vec<u8>,
    pub tree: Vec<u8>,
    pub parent: Option<Vec<u8>>,
}

/// The view of a record.
pub type RecordView = (Seq<u8>, Seq<u8>, Option<Seq<u8>>);

pub open spec fn record_views(s: Seq<CommitRecord>) -> Seq<RecordView> {
    s.map_values(|r: CommitRecord| (r.hash@, r.tree@, opt_view(r.parent)))
}

/// The parent to follow: none where absent or empty.
pub open spec fn next_of(parent: Option<Seq<u8>>) -> Option<Seq<u8>> {
    match parent {
        Some(p) => if p.len() == 0 { None } else { Some(p) },
        None => None,
    }
}

/// The history that starts at the commit with hex text `hex`: that commit,
/// then its parent's history, following at most `fuel` commits.
pub open spec fn history_of(store: Map<Seq<u8>, Seq<u8>>, hex: Seq<u8>, fuel: nat) -> Result<
    Seq<RecordView>,
    VcsError,
>
    decreases fuel,
{
    if fuel == 0 {
        Err(VcsError::TooDeep)
    } else {
        match raw_of(hex) {
            None => Err(VcsError::ObjectNotFound),
            Some(raw) => if !store.contains_key(raw) {
                Err(VcsError::ObjectNotFound)
            } else {
                match object_payload(ObjectType::Commit, store[raw]) {
                    None => Err(VcsError::CorruptObject),
                    Some(p) => match commit_tree(p) {
                        None => Err(VcsError::CorruptObject),
                        Some(t) => {
                            let rec = (hex, t, commit_parent(p));
                            match next_of(commit_parent(p)) {
                                None => Ok(seq![rec]),
                                Some(ph) => match history_of(store, ph, (fuel - 1) as nat) {
                                    Err(e) => Err(e),
                                    Ok(rest) => Ok(seq![rec] + rest),
                                },
                            }
                        },
                    },
                }
            },
        }
    }
}

/// The ancestry of the commit with hex text `start`, newest first, following
/// at most `fuel` commits; a commit that is missing or malformed anywhere
/// along the chain is an error.
pub fn history(store: &ObjectStore, start: &[u8], fuel: usize) -> (r: Result<Vec<CommitRecord>, VcsError>)
    requires
        store.wf(),
    ensures
        match r {
            Ok(rs) => history_of(store@, start@, fuel as nat) == Ok::<Seq<RecordView>, VcsError>(record_views(rs@)),
            Err(e) => history_of(store@, start@, fuel as nat) == Err::<Seq<RecordView>, VcsError>(e),
        },
{
    let mut out: Vec<CommitRecord> = Vec::new();
    let mut hex = to_bytes(start);
    let mut f: usize = fuel;
    let ghost all = history_of(store@, start@, fuel as nat);
    proof {
        match all {
            Ok(x) => { assert(record_views(out@) + x =~= x); },
            Err(_) => {},
        }
    }
    loop
        invariant
            store.wf(),
            all == history_of(store@, start@, fuel as nat),
            all == match history_of(store@, hex@, f as nat) {
                Ok(x) => Ok::<Seq<RecordView>, VcsError>(record_views(out@) + x),
                Err(e) => Err(e),
            },
        decreases f,
    {
        if f == 0 {
            return Err(VcsError::TooDeep);
        }
        let raw = match raw_hash(hex.as_slice()) {
            None => { return Err(VcsError::ObjectNotFound); },
            Some(raw) => raw,
        };
        let data = store.get(raw.as_slice())?;
        let payload = split_object(ObjectType::Commit, data.as_slice())?;
        let tree = match read_commit_tree(payload.as_slice()) {
            None => { return Err(VcsError::CorruptObject); },
            Some(t) => t,
        };
        let parent = read_commit_parent(payload.as_slice());
        let next: Option<Vec<u8>> = match &parent {
            Some(p) => if p.len() == 0 { None } else { Some(to_bytes(p.as_slice())) },
            None => None,
        };
        let ghost before = record_views(out@);
        let ghost rec = (hex@, tree@, opt_view(parent));
        out.push(CommitRecord { hash: hex, tree, parent });
        assert(record_views(out@) =~= before + seq![rec]);
        match next {
            None => {
                assert(before + seq![rec] =~= record_views(out@));
                return Ok(out);
            },
            Some(ph) => {
                proof {
                    match history_of(store@, ph@, (f - 1) as nat) {
                        Ok(x) => { assert(before + (seq![rec] + x) =~= record_views(out@) + x); },
                        Err(_) => {},
                    }
                }
                hex = ph;
                f = f - 1;
            },
        }
    }
}

/// Each of `commits` (payloads, oldest first) is stored under its 20-byte
/// hash, names a tree, and names the one before it as parent, the first
/// naming none.
pub open spec fn linked_commits(store: Map<Seq<u8>, Seq<u8>>, commits: Seq<Seq<u8>>) -> bool {
    &&& forall|i: int| 0 <= i < commits.len() ==> (#[trigger] sha1_of(encode_object(ObjectType::Commit, commits[i]))).len() == 20
    &&& forall|i: int| 0 <= i < commits.len() ==> store.contains_key(sha1_of(encode_object(ObjectType::Commit, #[trigger] commits[i])))
            && store[sha1_of(encode_object(ObjectType::Commit, commits[i]))] == encode_object(ObjectType::Commit, commits[i])
    &&& forall|i: int| 0 <= i < commits.len() ==> (#[trigger] commit_tree(commits[i])) is Some
    &&& commits.len() > 0 ==> commit_parent(commits[0]) is None
    &&& forall|i: int| 0 < i < commits.len() ==> commit_parent(#[trigger] commits[i]) == Some(
            hex_of(sha1_of(encode_object(ObjectType::Commit, commits[i - 1]))))
}

/// The hash of the `i`-th of `commits`.
pub open spec fn commit_hash_at(commits: Seq<Seq<u8>>, i: int) -> Seq<u8> {
    sha1_of(encode_object(ObjectType::Commit, commits[i]))
}

proof fn lemma_linked_distinct(store: Map<Seq<u8>, Seq<u8>>, commits: Seq<Seq<u8>>, i: int, j: int)
    requires
        linked_commits(store, commits),
        0 <= i < j < commits.len(),
    ensures
        commit_hash_at(commits, i) != commit_hash_at(commits, j),
    decreases i,
{
    if commit_hash_at(commits, i) == commit_hash_at(commits, j) {
        let h = commit_hash_at(commits, i);
        assert(store.contains_key(sha1_of(encode_object(ObjectType::Commit, commits[i]))));
        assert(store.contains_key(sha1_of(encode_object(ObjectType::Commit, commits[j]))));
        lemma_object_round_trip(ObjectType::Commit, commits[i]);
        lemma_object_round_trip(ObjectType::Commit, commits[j]);
        assert(commits[i] == commits[j]);
        assert(commit_parent(commits[j]) is Some);
        if i > 0 {
            assert(commit_parent(commits[i]) == commit_parent(commits[j]));
            let a = commit_hash_at(commits, i - 1);
            let b = commit_hash_at(commits, j - 1);
            assert(sha1_of(encode_object(ObjectType::Commit, commits[i - 1])).len() == 20);
            assert(hex_of(a) == hex_of(b));
            lemma_hex_round_trip(a);
            lemma_hex_round_trip(b);
            lemma_linked_distinct(store, commits, i - 1, j - 1);
        }
    }
}

/// The history that `Repository::log` walks, bounded by one more than the
/// number of stored objects, covers a whole chain of linked commits: from
/// the newest it has one record per commit, newest first, each with the
/// tree that its commit names.
pub proof fn lemma_log_bound_covers(store: ObjectStore, commits: Seq<Seq<u8>>)
    requires
        store.wf(),
        commits.len() > 0,
        linked_commits(store@, commits),
    ensures
        history_of(store@, hex_of(commit_hash_at(commits, commits.len() - 1)), store.size() + 1) matches Ok(rs)
            && rs.len() == commits.len()
            && forall|k: int| 0 <= k < rs.len() ==> (#[trigger] rs[k]).1 == commit_tree(commits[commits.len() - 1 - k])->0
                && rs[k].0 == hex_of(commit_hash_at(commits, commits.len() - 1 - k)),
{
    let ks = Seq::new(commits.len(), |i: int| commit_hash_at(commits, i));
    assert forall|a: int, b: int| 0 <= a < ks.len() && 0 <= b < ks.len() && a != b implies ks[a] != ks[b] by {
        if a < b {
            lemma_linked_distinct(store@, commits, a, b);
        } else {
            lemma_linked_distinct(store@, commits, b, a);
        }
    }
    assert forall|q: int| 0 <= q < ks.len() implies store@.contains_key(#[trigger] ks[q]) by {
        assert(store@.contains_key(sha1_of(encode_object(ObjectType::Commit, commits[q]))));
    }
    store.lemma_size_bound(ks);
    assert(commits.last() == commits[commits.len() - 1]);
    lemma_history_linkage(store@, commits, store.size() + 1);
}

/// Where each of `commits` (payloads, oldest first) is stored under its
/// hash, names its tree, and names the one before it as parent (the first
/// naming none), the history from the newest has one record per commit,
/// newest first, each with the tree that its commit names.
pub proof fn lemma_history_linkage(store: Map<Seq<u8>, Seq<u8>>, commits: Seq<Seq<u8>>, fuel: nat)
    requires
        commits.len() > 0,
        fuel >= commits.len(),
        linked_commits(store, commits),
    ensures
        history_of(store, hex_of(sha1_of(encode_object(ObjectType::Commit, commits.last()))), fuel) matches Ok(rs)
            && rs.len() == commits.len()
            && forall|k: int| 0 <= k < rs.len() ==> (#[trigger] rs[k]).1 == commit_tree(commits[commits.len() - 1 - k])->0
                && rs[k].0 == hex_of(sha1_of(encode_object(ObjectType::Commit, commits[commits.len() - 1 - k]))),
    decreases commits.len(),
{
    let n = commits.len() as int;
    let c = commits.last();
    let h = sha1_of(encode_object(ObjectType::Commit, c));
    assert(commit_tree(commits[n - 1]) is Some);
    lemma_hex_round_trip(h);
    assert(h.len() == 20);
    assert(raw_of(hex_of(h)) == Some(h));
    lemma_object_round_trip(ObjectType::Commit, c);
    if n == 1 {
        assert(commit_parent(c) is None);
    } else {
        let prev = commits.drop_last();
        assert forall|i: int| 0 <= i < prev.len() implies (#[trigger] sha1_of(encode_object(ObjectType::Commit, prev[i]))).len() == 20 by {
            assert(prev[i] == commits[i]);
        }
        assert forall|i: int| 0 <= i < prev.len() implies store.contains_key(sha1_of(encode_object(ObjectType::Commit, #[trigger] prev[i])))
            && store[sha1_of(encode_object(ObjectType::Commit, prev[i]))] == encode_object(ObjectType::Commit, prev[i]) by {
            assert(prev[i] == commits[i]);
        }
        assert forall|i: int| 0 <= i < prev.len() implies (#[trigger] commit_tree(prev[i])) is Some by {
            assert(prev[i] == commits[i]);
        }
        assert forall|i: int| 0 < i < prev.len() implies commit_parent(#[trigger] prev[i]) == Some(
            hex_of(sha1_of(encode_object(ObjectType::Commit, prev[i - 1])))) by {
            assert(prev[i] == commits[i]);
            assert(prev[i - 1] == commits[i - 1]);
        }
        assert(commit_parent(commits[n - 1]) == Some(hex_of(sha1_of(encode_object(ObjectType::Commit, commits[n - 2])))));
        let ph = hex_of(sha1_of(encode_object(ObjectType::Commit, commits[n - 2])));
        assert(ph.len() == 40);
        lemma_history_linkage(store, prev, (fuel - 1) as nat);
        assert(prev.last() == commits[n - 2]);
        let rest = history_of(store, ph, (fuel - 1) as nat)->Ok_0;
        let rs = history_of(store, hex_of(h), fuel)->Ok_0;
        assert(rs == seq![(hex_of(h), commit_tree(c)->0, commit_parent(c))] + rest);
        assert forall|k: int| 0 <= k < rs.len() implies (#[trigger] rs[k]).1 == commit_tree(commits[commits.len() - 1 - k])->0
            && rs[k].0 == hex_of(sha1_of(encode_object(ObjectType::Commit, commits[commits.len() - 1 - k]))) by {
            if k > 0 {
                assert(rs[k] == rest[k - 1]);
                assert(prev[prev.len() - 1 - (k - 1)] == commits[commits.len() - 1 - k]);
            }
        }
    }
}

} // verus!

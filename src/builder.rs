use vstd::prelude::*;
use crate::bytes::to_bytes;
use crate::digest::sha1_of;
use crate::ignore::{ignored, is_ignored, IgnoreRule};
use crate::object::{
    encode_object, entry_views, format_object, format_tree, tree_payload, EntryMode, EntryView,
    ObjectType, TreeEntry,
};
use crate::sort::{distinct_names, lemma_sort_order_independent, sort_entries, sort_tree_entries};
use crate::store::ObjectStore;
use crate::table::stored_after;
use crate::worktree::{is_metadata, is_metadata_name, join, join_path, WorkNode, WorkTree};

verus! {

/// An entry that a tree records: not a metadata directory, and not ignored.
pub open spec fn kept(rules: Seq<IgnoreRule>, name: Seq<u8>, path: Seq<u8>) -> bool {
    !is_metadata(name) && !ignored(rules, path)
}

/// The store after writing each of `objects` under its hash, in order.
pub open spec fn store_all(m: Map<Seq<u8>, Seq<u8>>, objects: Seq<Seq<u8>>) -> Map<Seq<u8>, Seq<u8>>
    decreases objects.len(),
{
    if objects.len() == 0 {
        m
    } else {
        store_all(stored_after(m, sha1_of(objects[0]), objects[0]), objects.drop_first())
    }
}

pub proof fn lemma_store_all_append(m: Map<Seq<u8>, Seq<u8>>, a: Seq<Seq<u8>>, b: Seq<Seq<u8>>)
    ensures
        store_all(m, a + b) == store_all(store_all(m, a), b),
    decreases a.len(),
{
    if a.len() > 0 {
        assert((a + b).drop_first() =~= a.drop_first() + b);
        lemma_store_all_append(stored_after(m, sha1_of(a[0]), a[0]), a.drop_first(), b);
    } else {
        assert(a + b =~= b);
    }
}

/// The entries that the tree of directory `i` records, from its `k`-th
/// entry on, before sorting.
pub open spec fn built_entries(wt: WorkTree, rules: Seq<IgnoreRule>, i: int, prefix: Seq<u8>, k: int) -> Seq<EntryView>
    decreases wt.dirs@.len() - i, 0int, wt.dirs@[i].entries@.len() - k,
{
    if 0 <= i < wt.dirs@.len() && 0 <= k < wt.dirs@[i].entries@.len() {
        let e = wt.dirs@[i].entries@[k];
        let path = join(prefix, e.name@);
        let rest = built_entries(wt, rules, i, prefix, k + 1);
        if !kept(rules, e.name@, path) {
            rest
        } else {
            match e.node {
                WorkNode::File(c) => seq![
                    EntryView { mode: EntryMode::File, name: e.name@, hash: sha1_of(encode_object(ObjectType::Blob, c@)) },
                ] + rest,
                WorkNode::Dir(j) => if i < j && j < wt.dirs@.len() {
                    seq![
                        EntryView { mode: EntryMode::Directory, name: e.name@, hash: dir_tree_hash(wt, rules, j as int, path) },
                    ] + rest
                } else {
                    rest
                },
            }
        }
    } else {
        seq![]
    }
}

/// The objects written for directory `i`'s entries from the `k`-th on.
pub open spec fn built_writes(wt: WorkTree, rules: Seq<IgnoreRule>, i: int, prefix: Seq<u8>, k: int) -> Seq<Seq<u8>>
    decreases wt.dirs@.len() - i, 0int, wt.dirs@[i].entries@.len() - k,
{
    if 0 <= i < wt.dirs@.len() && 0 <= k < wt.dirs@[i].entries@.len() {
        let e = wt.dirs@[i].entries@[k];
        let path = join(prefix, e.name@);
        let rest = built_writes(wt, rules, i, prefix, k + 1);
        if !kept(rules, e.name@, path) {
            rest
        } else {
            match e.node {
                WorkNode::File(c) => seq![encode_object(ObjectType::Blob, c@)] + rest,
                WorkNode::Dir(j) => if i < j && j < wt.dirs@.len() {
                    dir_writes(wt, rules, j as int, path) + rest
                } else {
                    rest
                },
            }
        }
    } else {
        seq![]
    }
}

/// The stored bytes of directory `i`'s tree: its recorded entries, sorted by
/// name.
pub open spec fn dir_tree_bytes(wt: WorkTree, rules: Seq<IgnoreRule>, i: int, prefix: Seq<u8>) -> Seq<u8>
    decreases wt.dirs@.len() - i, 1int,
{
    encode_object(ObjectType::Tree, tree_payload(sort_entries(built_entries(wt, rules, i, prefix, 0))))
}

/// The raw hash of directory `i`'s tree.
pub open spec fn dir_tree_hash(wt: WorkTree, rules: Seq<IgnoreRule>, i: int, prefix: Seq<u8>) -> Seq<u8>
    decreases wt.dirs@.len() - i, 2int,
{
    sha1_of(dir_tree_bytes(wt, rules, i, prefix))
}

/// Every object written for directory `i`, blobs and subtrees first and its
/// own tree last.
pub open spec fn dir_writes(wt: WorkTree, rules: Seq<IgnoreRule>, i: int, prefix: Seq<u8>) -> Seq<Seq<u8>>
    decreases wt.dirs@.len() - i, 2int,
{
    built_writes(wt, rules, i, prefix, 0) + seq![dir_tree_bytes(wt, rules, i, prefix)]
}

fn is_kept(rules: &[IgnoreRule], name: &[u8], path: &[u8]) -> (r: bool)
    ensures
        r == kept(rules@, name@, path@),
{
    !is_metadata_name(name) && !is_ignored(path, rules)
}

fn build_dir(wt: &WorkTree, rules: &[IgnoreRule], i: usize, prefix: &[u8], store: &mut ObjectStore) -> (r: Vec<u8>)
    requires
        i < wt.dirs@.len(),
        old(store).wf(),
    ensures
        final(store).wf(),
        r@ == dir_tree_hash(*wt, rules@, i as int, prefix@),
        r@.len() == 20,
        final(store)@ == store_all(old(store)@, dir_writes(*wt, rules@, i as int, prefix@)),
    decreases wt.dirs@.len() - i, 2int,
{
    let ghost w = *wt;
    let ghost rs = rules@;
    let ghost pre = prefix@;
    let ghost m0 = store@;
    let dir = &wt.dirs[i];
    let mut entries: Vec<TreeEntry> = Vec::new();
    let mut k: usize = 0;
    assert(entry_views(entries@) + built_entries(w, rs, i as int, pre, 0) =~= built_entries(w, rs, i as int, pre, 0));
    while k < dir.entries.len()
        invariant
            i < wt.dirs@.len(),
            *dir == wt.dirs@[i as int],
            w == *wt,
            rs == rules@,
            pre == prefix@,
            k <= dir.entries@.len(),
            store.wf(),
            built_entries(w, rs, i as int, pre, 0) == entry_views(entries@) + built_entries(w, rs, i as int, pre, k as int),
            store_all(m0, built_writes(w, rs, i as int, pre, 0)) == store_all(store@, built_writes(w, rs, i as int, pre, k as int)),
        decreases dir.entries@.len() - k,
    {
        let e = &dir.entries[k];
        assert(*e == wt.dirs@[i as int].entries@[k as int]);
        let path = join_path(prefix, e.name.as_slice());
        let ghost ev0 = entry_views(entries@);
        let ghost m1 = store@;
        let ghost rest_e = built_entries(w, rs, i as int, pre, k + 1);
        let ghost rest_w = built_writes(w, rs, i as int, pre, k + 1);
        if is_kept(rules, e.name.as_slice(), path.as_slice()) {
            match &e.node {
                WorkNode::File(c) => {
                    let blob = format_object(ObjectType::Blob, c.as_slice());
                    let h = store.write_object(blob.as_slice());
                    entries.push(TreeEntry { mode: EntryMode::File, name: to_bytes(e.name.as_slice()), hash: h });
                    proof {
                        assert(entry_views(entries@) =~= ev0.push(entry_views(entries@).last()));
                        assert(ev0 + (seq![entry_views(entries@).last()] + rest_e) =~= entry_views(entries@) + rest_e);
                        assert(built_writes(w, rs, i as int, pre, k as int) == seq![blob@] + rest_w);
                        assert((seq![blob@] + rest_w).drop_first() =~= rest_w);
                    }
                },
                WorkNode::Dir(j) => {
                    if i < *j && *j < wt.dirs.len() {
                        let h = build_dir(wt, rules, *j, path.as_slice(), store);
                        entries.push(TreeEntry { mode: EntryMode::Directory, name: to_bytes(e.name.as_slice()), hash: h });
                        proof {
                            assert(entry_views(entries@) =~= ev0.push(entry_views(entries@).last()));
                            assert(ev0 + (seq![entry_views(entries@).last()] + rest_e) =~= entry_views(entries@) + rest_e);
                            lemma_store_all_append(m1, dir_writes(w, rs, *j as int, path@), rest_w);
                        }
                    }
                },
            }
        }
        k = k + 1;
    }
    assert(entry_views(entries@) + Seq::<EntryView>::empty() =~= entry_views(entries@));
    let ghost m_loop = store@;
    assert(built_writes(w, rs, i as int, pre, k as int) == Seq::<Seq<u8>>::empty());
    assert(store_all(m0, built_writes(w, rs, i as int, pre, 0)) == m_loop);
    let sorted = sort_tree_entries(entries.as_slice());
    let bytes = format_tree(sorted.as_slice());
    let h = store.write_object(bytes.as_slice());
    proof {
        let all = built_writes(w, rs, i as int, pre, 0);
        let tb = dir_tree_bytes(w, rs, i as int, pre);
        assert(bytes@ == tb);
        lemma_store_all_append(m0, all, seq![tb]);
        assert(seq![tb].drop_first() =~= Seq::<Seq<u8>>::empty());
        assert(store_all(m_loop, seq![tb]) == store_all(stored_after(m_loop, sha1_of(tb), tb), Seq::<Seq<u8>>::empty()));
        assert(dir_writes(w, rs, i as int, pre) == all + seq![tb]);
    }
    h
}

/// Builds the tree of the working directory: every file not ignored is
/// stored as a blob and every directory as a tree, each tree's entries
/// sorted by name, subtrees before their parents; returns the root tree's
/// raw hash.
pub fn write_tree(wt: &WorkTree, rules: &[IgnoreRule], store: &mut ObjectStore) -> (r: Vec<u8>)
    requires
        wt.dirs@.len() > 0,
        wt.wf(),
        old(store).wf(),
    ensures
        final(store).wf(),
        r@ == dir_tree_hash(*wt, rules@, 0, seq![]),
        r@.len() == 20,
        final(store)@ == store_all(old(store)@, dir_writes(*wt, rules@, 0, seq![])),
{
    let empty: Vec<u8> = Vec::new();
    assert(empty@ =~= Seq::<u8>::empty());
    build_dir(wt, rules, 0, empty.as_slice(), store)
}

proof fn lemma_built_names(wt: WorkTree, rules: Seq<IgnoreRule>, i: int, prefix: Seq<u8>, k: int)
    requires
        wt.wf(),
        0 <= i < wt.dirs@.len(),
        0 <= k,
    ensures
        distinct_names(built_entries(wt, rules, i, prefix, k)),
        forall|q: int| #![trigger built_entries(wt, rules, i, prefix, k)[q]] 0 <= q < built_entries(wt, rules, i, prefix, k).len() ==> exists|k2: int|
            k <= k2 < wt.dirs@[i].entries@.len() && #[trigger] wt.dirs@[i].entries@[k2].name@
                == built_entries(wt, rules, i, prefix, k)[q].name,
    decreases wt.dirs@[i].entries@.len() - k,
{
    let b = built_entries(wt, rules, i, prefix, k);
    if k < wt.dirs@[i].entries@.len() {
        lemma_built_names(wt, rules, i, prefix, k + 1);
        let rest = built_entries(wt, rules, i, prefix, k + 1);
        if b.len() == rest.len() + 1 {
            let x = wt.dirs@[i].entries@[k];
            assert(b == seq![b[0]] + rest);
            assert(b[0].name == x.name@);
            assert forall|q: int| #![trigger b[q]] 0 <= q < b.len() implies exists|k2: int|
                k <= k2 < wt.dirs@[i].entries@.len() && #[trigger] wt.dirs@[i].entries@[k2].name@ == b[q].name by {
                if q == 0 {
                    assert(wt.dirs@[i].entries@[k].name@ == b[q].name);
                } else {
                    assert(b[q] == rest[q - 1]);
                }
            }
            assert forall|p: int, q: int| 0 <= p < b.len() && 0 <= q < b.len() && p != q implies #[trigger] b[p].name
                != #[trigger] b[q].name by {
                if p == 0 || q == 0 {
                    let o = if p == 0 { q } else { p };
                    assert(b[o] == rest[o - 1]);
                    let k2 = choose|k2: int| k + 1 <= k2 < wt.dirs@[i].entries@.len() && #[trigger] wt.dirs@[i].entries@[k2].name@ == rest[o - 1].name;
                    assert(wt.dirs@[i].entries@[k].name@ != wt.dirs@[i].entries@[k2].name@);
                } else {
                    assert(b[p] == rest[p - 1] && b[q] == rest[q - 1]);
                }
            }
        } else {
            assert(b == rest);
            assert forall|q: int| #![trigger b[q]] 0 <= q < b.len() implies exists|k2: int|
                k <= k2 < wt.dirs@[i].entries@.len() && #[trigger] wt.dirs@[i].entries@[k2].name@ == b[q].name by {
                let k2 = choose|k2: int| k + 1 <= k2 < wt.dirs@[i].entries@.len() && #[trigger] wt.dirs@[i].entries@[k2].name@ == rest[q].name;
                assert(wt.dirs@[i].entries@[k2].name@ == b[q].name);
            }
        }
    }
}

/// The tree recorded for a directory does not depend on the order in which
/// its entries were listed: two directories of well-formed working trees
/// that record the same entries get the same tree bytes and the same hash.
pub proof fn lemma_canonical_tree(
    wt1: WorkTree,
    i1: int,
    p1: Seq<u8>,
    wt2: WorkTree,
    i2: int,
    p2: Seq<u8>,
    rules: Seq<IgnoreRule>,
)
    requires
        wt1.wf(),
        wt2.wf(),
        0 <= i1 < wt1.dirs@.len(),
        0 <= i2 < wt2.dirs@.len(),
        forall|x: EntryView|
            built_entries(wt1, rules, i1, p1, 0).contains(x) <==> built_entries(wt2, rules, i2, p2, 0).contains(x),
    ensures
        dir_tree_bytes(wt1, rules, i1, p1) == dir_tree_bytes(wt2, rules, i2, p2),
        dir_tree_hash(wt1, rules, i1, p1) == dir_tree_hash(wt2, rules, i2, p2),
{
    lemma_built_names(wt1, rules, i1, p1, 0);
    lemma_built_names(wt2, rules, i2, p2, 0);
    lemma_sort_order_independent(built_entries(wt1, rules, i1, p1, 0), built_entries(wt2, rules, i2, p2, 0));
}

} // verus!

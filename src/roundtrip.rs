use vstd::prelude::*;
use crate::builder::{built_entries, built_writes, dir_tree_bytes, dir_tree_hash, dir_writes, kept, lemma_canonical_tree};
use crate::bytes::has_byte;
use crate::digest::sha1_of;
use crate::ignore::IgnoreRule;
use crate::object::{
    decode_tree, encode_object, entry_ok, lemma_object_round_trip, lemma_tree_round_trip,
    EntryMode, EntryView, ObjectType,
};
use crate::repo::restored;
use crate::sort::{lemma_sort_members, sort_entries};
use crate::walk::{entries_tree_files, tree_files, MAX_DEPTH};
use crate::worktree::{join, WorkEntry, WorkNode, WorkTree};

verus! {

/// The store holds each of `objects` under its 20-byte hash, unchanged.
pub open spec fn stored_exactly(m: Map<Seq<u8>, Seq<u8>>, objects: Seq<Seq<u8>>) -> bool {
    forall|x: Seq<u8>|
        #[trigger] objects.contains(x) ==> m.contains_key(sha1_of(x)) && m[sha1_of(x)] == x
            && sha1_of(x).len() == 20
}

/// Directory `i` (at `prefix`) records a file at path `p` with contents `c`,
/// itself or below one of its recorded subdirectories.
pub open spec fn recorded_file(wt: WorkTree, rules: Seq<IgnoreRule>, i: int, prefix: Seq<u8>, p: Seq<u8>, c: Seq<u8>) -> bool {
    0 <= i < wt.dirs@.len() && recorded_from(wt, rules, i, prefix, 0, p, c)
}

/// One of the entries of directory `i` from the `k`-th on records a file at
/// path `p` with contents `c`.
pub open spec fn recorded_from(wt: WorkTree, rules: Seq<IgnoreRule>, i: int, prefix: Seq<u8>, k: int, p: Seq<u8>, c: Seq<u8>) -> bool
    decreases wt.dirs@.len() - i, 1int, wt.dirs@[i].entries@.len() - k,
{
    if 0 <= i < wt.dirs@.len() && 0 <= k < wt.dirs@[i].entries@.len() {
        file_at(wt, rules, i, prefix, k, p, c) || recorded_from(wt, rules, i, prefix, k + 1, p, c)
    } else {
        false
    }
}

/// Entry `k` of directory `i` records a file at path `p` with contents `c`.
pub open spec fn file_at(wt: WorkTree, rules: Seq<IgnoreRule>, i: int, prefix: Seq<u8>, k: int, p: Seq<u8>, c: Seq<u8>) -> bool
    decreases wt.dirs@.len() - i, 0int,
{
    if 0 <= i < wt.dirs@.len() && 0 <= k < wt.dirs@[i].entries@.len() {
        let x = wt.dirs@[i].entries@[k];
        let path = join(prefix, x.name@);
        kept(rules, x.name@, path) && match x.node {
            WorkNode::File(fc) => p == path && c == fc@,
            WorkNode::Dir(j) => i < j < wt.dirs@.len() && recorded_from(wt, rules, j as int, path, 0, p, c),
        }
    } else {
        false
    }
}

/// Entry `k2` of directory `i` is the origin of the recorded entry `e`.
pub open spec fn origin_at(wt: WorkTree, rules: Seq<IgnoreRule>, i: int, prefix: Seq<u8>, k2: int, e: EntryView) -> bool {
    let x = wt.dirs@[i].entries@[k2];
    let path = join(prefix, x.name@);
    kept(rules, x.name@, path) && e.name == x.name@ && match x.node {
        WorkNode::File(c) => e.mode == EntryMode::File && e.hash == sha1_of(encode_object(ObjectType::Blob, c@)),
        WorkNode::Dir(j) => i < j < wt.dirs@.len() && e.mode == EntryMode::Directory && e.hash == dir_tree_hash(wt, rules, j as int, path),
    }
}

proof fn lemma_origin(wt: WorkTree, rules: Seq<IgnoreRule>, i: int, prefix: Seq<u8>, k: int, e: EntryView)
    requires
        0 <= i < wt.dirs@.len(),
        0 <= k,
        built_entries(wt, rules, i, prefix, k).contains(e),
    ensures
        exists|k2: int| k <= k2 < wt.dirs@[i].entries@.len() && #[trigger] origin_at(wt, rules, i, prefix, k2, e),
    decreases wt.dirs@[i].entries@.len() - k,
{
    let b = built_entries(wt, rules, i, prefix, k);
    let rest = built_entries(wt, rules, i, prefix, k + 1);
    if k < wt.dirs@[i].entries@.len() {
        let x = wt.dirs@[i].entries@[k];
        let path = join(prefix, x.name@);
        if kept(rules, x.name@, path) && (b.len() == rest.len() + 1) && b[0] == e {
            assert(b == seq![b[0]] + rest);
            assert(origin_at(wt, rules, i, prefix, k, e));
        } else {
            if kept(rules, x.name@, path) && b.len() == rest.len() + 1 {
                assert(b == seq![b[0]] + rest);
                let q = choose|q: int| 0 <= q < b.len() && b[q] == e;
                assert(rest[q - 1] == e);
            } else {
                assert(b == rest);
            }
            lemma_origin(wt, rules, i, prefix, k + 1, e);
            let k2 = choose|k2: int| k + 1 <= k2 < wt.dirs@[i].entries@.len() && #[trigger] origin_at(wt, rules, i, prefix, k2, e);
            assert(origin_at(wt, rules, i, prefix, k2, e));
        }
    } else {
        assert(b.len() == 0);
    }
}

proof fn lemma_writes_at(wt: WorkTree, rules: Seq<IgnoreRule>, i: int, prefix: Seq<u8>, k: int, k2: int)
    requires
        0 <= i < wt.dirs@.len(),
        0 <= k <= k2 < wt.dirs@[i].entries@.len(),
        kept(rules, wt.dirs@[i].entries@[k2].name@, join(prefix, wt.dirs@[i].entries@[k2].name@)),
    ensures
        match wt.dirs@[i].entries@[k2].node {
            WorkNode::File(c) => built_writes(wt, rules, i, prefix, k).contains(encode_object(ObjectType::Blob, c@)),
            WorkNode::Dir(j) => i < j < wt.dirs@.len() ==> forall|x: Seq<u8>|
                #[trigger] dir_writes(wt, rules, j as int, join(prefix, wt.dirs@[i].entries@[k2].name@)).contains(x)
                    ==> built_writes(wt, rules, i, prefix, k).contains(x),
        },
    decreases k2 - k,
{
    let here = built_writes(wt, rules, i, prefix, k);
    let rest = built_writes(wt, rules, i, prefix, k + 1);
    let x = wt.dirs@[i].entries@[k];
    let path = join(prefix, x.name@);
    if k < k2 {
        lemma_writes_at(wt, rules, i, prefix, k + 1, k2);
        // everything in `rest` is in `here`
        assert forall|y: Seq<u8>| #[trigger] rest.contains(y) implies here.contains(y) by {
            let q = choose|q: int| 0 <= q < rest.len() && rest[q] == y;
            if !kept(rules, x.name@, path) {
                assert(here == rest);
            } else {
                match x.node {
                    WorkNode::File(c) => {
                        assert(here == seq![encode_object(ObjectType::Blob, c@)] + rest);
                        assert(here[q + 1] == y);
                    },
                    WorkNode::Dir(j) => {
                        if i < j && j < wt.dirs@.len() {
                            let d = dir_writes(wt, rules, j as int, path);
                            assert(here == d + rest);
                            assert(here[d.len() + q] == y);
                        } else {
                            assert(here == rest);
                        }
                    },
                }
            }
        }
    } else {
        match x.node {
            WorkNode::File(c) => {
                assert(here == seq![encode_object(ObjectType::Blob, c@)] + rest);
                assert(here[0] == encode_object(ObjectType::Blob, c@));
            },
            WorkNode::Dir(j) => {
                if i < j && j < wt.dirs@.len() {
                    let d = dir_writes(wt, rules, j as int, path);
                    assert(here == d + rest);
                    assert forall|y: Seq<u8>| #[trigger] d.contains(y) implies here.contains(y) by {
                        let q = choose|q: int| 0 <= q < d.len() && d[q] == y;
                        assert(here[q] == y);
                    }
                }
            },
        }
    }
}

proof fn lemma_recorded_intro(wt: WorkTree, rules: Seq<IgnoreRule>, i: int, prefix: Seq<u8>, k0: int, k: int, p: Seq<u8>, c: Seq<u8>)
    requires
        0 <= i < wt.dirs@.len(),
        0 <= k0 <= k < wt.dirs@[i].entries@.len(),
        file_at(wt, rules, i, prefix, k, p, c),
    ensures
        recorded_from(wt, rules, i, prefix, k0, p, c),
    decreases k - k0,
{
    if k0 < k {
        lemma_recorded_intro(wt, rules, i, prefix, k0 + 1, k, p, c);
    }
}

/// A listed (path, hash) pair reads back as a file that directory `i`
/// records: the store holds that file's blob under the hash.
pub open spec fn good(m: Map<Seq<u8>, Seq<u8>>, wt: WorkTree, rules: Seq<IgnoreRule>, i: int, prefix: Seq<u8>, f: (Seq<u8>, Seq<u8>)) -> bool {
    m.contains_key(f.1) && exists|c: Seq<u8>|
        #[trigger] recorded_file(wt, rules, i, prefix, f.0, c) && m[f.1] == encode_object(ObjectType::Blob, c)
}

proof fn lemma_good_intro(m: Map<Seq<u8>, Seq<u8>>, wt: WorkTree, rules: Seq<IgnoreRule>, i: int, prefix: Seq<u8>, p: Seq<u8>, h: Seq<u8>, c: Seq<u8>)
    requires
        m.contains_key(h),
        recorded_file(wt, rules, i, prefix, p, c),
        m[h] == encode_object(ObjectType::Blob, c),
    ensures
        good(m, wt, rules, i, prefix, (p, h)),
{
    let f = (p, h);
    assert(f.0 == p && f.1 == h);
    assert(recorded_file(wt, rules, i, prefix, f.0, c));
}

proof fn lemma_in_dir_writes(wt: WorkTree, rules: Seq<IgnoreRule>, i: int, prefix: Seq<u8>, x: Seq<u8>)
    requires
        built_writes(wt, rules, i, prefix, 0).contains(x),
    ensures
        dir_writes(wt, rules, i, prefix).contains(x),
{
    let b = built_writes(wt, rules, i, prefix, 0);
    let q = choose|q: int| 0 <= q < b.len() && b[q] == x;
    assert(dir_writes(wt, rules, i, prefix)[q] == x);
}

proof fn lemma_dir_read_back(m: Map<Seq<u8>, Seq<u8>>, wt: WorkTree, rules: Seq<IgnoreRule>, i: int, prefix: Seq<u8>, fuel: nat)
    requires
        0 <= i < wt.dirs@.len(),
        fuel >= wt.dirs@.len() - i,
        wt.wf(),
        stored_exactly(m, dir_writes(wt, rules, i, prefix)),
    ensures
        tree_files(m, prefix, dir_tree_hash(wt, rules, i, prefix), fuel) matches Ok(l)
            && forall|idx: int| 0 <= idx < l.len() ==> good(m, wt, rules, i, prefix, #[trigger] l[idx]),
        m.contains_key(dir_tree_hash(wt, rules, i, prefix)),
        decode_tree(m[dir_tree_hash(wt, rules, i, prefix)]) == Some(sort_entries(built_entries(wt, rules, i, prefix, 0))),
    decreases wt.dirs@.len() - i, 1int,
{
    let tb = dir_tree_bytes(wt, rules, i, prefix);
    let w = dir_writes(wt, rules, i, prefix);
    assert(w[w.len() - 1] == tb);
    assert(w.contains(tb));
    let es = built_entries(wt, rules, i, prefix, 0);
    let sorted = sort_entries(es);
    lemma_sort_members(es);
    assert forall|k: int| 0 <= k < es.len() implies entry_ok(#[trigger] es[k]) by {
        let e = es[k];
        assert(es.contains(e));
        lemma_origin(wt, rules, i, prefix, 0, e);
        let k2 = choose|k2: int| 0 <= k2 < wt.dirs@[i].entries@.len() && #[trigger] origin_at(wt, rules, i, prefix, k2, e);
        lemma_writes_at(wt, rules, i, prefix, 0, k2);
        let x = wt.dirs@[i].entries@[k2];
        assert(!has_byte(wt.dirs@[i].entries@[k2].name@, 0));
        match x.node {
            WorkNode::File(c) => {
                lemma_in_dir_writes(wt, rules, i, prefix, encode_object(ObjectType::Blob, c@));
            },
            WorkNode::Dir(j) => {
                let path = join(prefix, x.name@);
                let dw = dir_writes(wt, rules, j as int, path);
                assert(dw[dw.len() - 1] == dir_tree_bytes(wt, rules, j as int, path));
                assert(dw.contains(dir_tree_bytes(wt, rules, j as int, path)));
                lemma_in_dir_writes(wt, rules, i, prefix, dir_tree_bytes(wt, rules, j as int, path));
            },
        }
    }
    assert forall|k: int| 0 <= k < sorted.len() implies entry_ok(#[trigger] sorted[k]) by {
        assert(sorted.contains(sorted[k]));
        assert(es.contains(sorted[k]));
        let q = choose|q: int| 0 <= q < es.len() && es[q] == sorted[k];
        assert(entry_ok(es[q]));
    }
    lemma_tree_round_trip(sorted);
    lemma_entries_read_back(m, wt, rules, i, prefix, (fuel - 1) as nat, 0);
}

proof fn lemma_entries_read_back(m: Map<Seq<u8>, Seq<u8>>, wt: WorkTree, rules: Seq<IgnoreRule>, i: int, prefix: Seq<u8>, fuel: nat, k: int)
    requires
        0 <= i < wt.dirs@.len(),
        fuel + 1 >= wt.dirs@.len() - i,
        0 <= k,
        wt.wf(),
        stored_exactly(m, dir_writes(wt, rules, i, prefix)),
    ensures
        entries_tree_files(m, prefix, sort_entries(built_entries(wt, rules, i, prefix, 0)), fuel, k) matches Ok(l)
            && forall|idx: int| 0 <= idx < l.len() ==> good(m, wt, rules, i, prefix, #[trigger] l[idx]),
    decreases wt.dirs@.len() - i, 0int, sort_entries(built_entries(wt, rules, i, prefix, 0)).len() - k,
{
    let es = built_entries(wt, rules, i, prefix, 0);
    let sorted = sort_entries(es);
    if k < sorted.len() {
        lemma_sort_members(es);
        let e = sorted[k];
        assert(sorted.contains(e));
        lemma_origin(wt, rules, i, prefix, 0, e);
        let k2 = choose|k2: int| 0 <= k2 < wt.dirs@[i].entries@.len() && #[trigger] origin_at(wt, rules, i, prefix, k2, e);
        lemma_writes_at(wt, rules, i, prefix, 0, k2);
        let x = wt.dirs@[i].entries@[k2];
        let path = join(prefix, x.name@);
        assert(path == join(prefix, e.name));
        lemma_entries_read_back(m, wt, rules, i, prefix, fuel, k + 1);
        let rest = entries_tree_files(m, prefix, sorted, fuel, k + 1)->Ok_0;
        match x.node {
            WorkNode::File(c) => {
                let blob = encode_object(ObjectType::Blob, c@);
                lemma_in_dir_writes(wt, rules, i, prefix, blob);
                assert(file_at(wt, rules, i, prefix, k2, path, c@));
                assert(0 <= k2 < wt.dirs@[i].entries@.len());
                assert(exists|kk: int| 0 <= kk < wt.dirs@[i].entries@.len() && #[trigger] file_at(wt, rules, i, prefix, kk, path, c@));
                lemma_recorded_intro(wt, rules, i, prefix, 0, k2, path, c@);
                assert(recorded_file(wt, rules, i, prefix, path, c@));
                assert(dir_writes(wt, rules, i, prefix).contains(blob));
                assert(e.hash == sha1_of(blob));
                assert(m.contains_key(e.hash) && m[e.hash] == blob);
                let first = seq![(path, e.hash)];
                lemma_good_intro(m, wt, rules, i, prefix, path, e.hash, c@);
                assert(first[0] == (path, e.hash));
                let l = entries_tree_files(m, prefix, sorted, fuel, k)->Ok_0;
                assert(l == first + rest);
                assert forall|idx: int| 0 <= idx < l.len() implies good(m, wt, rules, i, prefix, #[trigger] l[idx]) by {
                    if idx > 0 {
                        assert(l[idx] == rest[idx - 1]);
                    }
                }
            },
            WorkNode::Dir(j) => {
                assert forall|y: Seq<u8>| #[trigger] dir_writes(wt, rules, j as int, path).contains(y) implies m.contains_key(sha1_of(y))
                    && m[sha1_of(y)] == y && sha1_of(y).len() == 20 by {
                    lemma_in_dir_writes(wt, rules, i, prefix, y);
                }
                assert(stored_exactly(m, dir_writes(wt, rules, j as int, path)));
                lemma_dir_read_back(m, wt, rules, j as int, path, fuel);
                let sub = tree_files(m, path, e.hash, fuel)->Ok_0;
                assert forall|idx: int| 0 <= idx < sub.len() implies good(m, wt, rules, i, prefix, #[trigger] sub[idx]) by {
                    assert(good(m, wt, rules, j as int, path, sub[idx]));
                    let c = choose|c: Seq<u8>| #[trigger] recorded_file(wt, rules, j as int, path, sub[idx].0, c) && m[sub[idx].1] == encode_object(ObjectType::Blob, c);
                    assert(file_at(wt, rules, i, prefix, k2, sub[idx].0, c));
                    lemma_recorded_intro(wt, rules, i, prefix, 0, k2, sub[idx].0, c);
                    assert(recorded_file(wt, rules, i, prefix, sub[idx].0, c));
                }
                let l = entries_tree_files(m, prefix, sorted, fuel, k)->Ok_0;
                assert(l == sub + rest);
                assert forall|idx: int| 0 <= idx < l.len() implies good(m, wt, rules, i, prefix, #[trigger] l[idx]) by {
                    if idx >= sub.len() {
                        assert(l[idx] == rest[idx - sub.len()]);
                    } else {
                        assert(l[idx] == sub[idx]);
                    }
                }
            },
        }
    }
}

proof fn lemma_restored_good(m: Map<Seq<u8>, Seq<u8>>, l: Seq<(Seq<u8>, Seq<u8>)>, wt: WorkTree, rules: Seq<IgnoreRule>, i: int, prefix: Seq<u8>)
    requires
        forall|idx: int| 0 <= idx < l.len() ==> good(m, wt, rules, i, prefix, #[trigger] l[idx]),
    ensures
        restored(m, l) matches Ok(r) && r.len() == l.len() && forall|idx: int|
            0 <= idx < r.len() ==> (#[trigger] r[idx]).0 == l[idx].0 && recorded_file(wt, rules, i, prefix, r[idx].0, r[idx].1)
                && m[l[idx].1] == encode_object(ObjectType::Blob, r[idx].1),
    decreases l.len(),
{
    if l.len() > 0 {
        let f = l[0];
        assert(good(m, wt, rules, i, prefix, f));
        let c = choose|c: Seq<u8>| #[trigger] recorded_file(wt, rules, i, prefix, f.0, c) && m[f.1] == encode_object(ObjectType::Blob, c);
        lemma_object_round_trip(ObjectType::Blob, c);
        let rest = l.drop_first();
        assert forall|idx: int| 0 <= idx < rest.len() implies good(m, wt, rules, i, prefix, #[trigger] rest[idx]) by {
            assert(rest[idx] == l[idx + 1]);
        }
        lemma_restored_good(m, rest, wt, rules, i, prefix);
        let rr = restored(m, rest)->Ok_0;
        let r = restored(m, l)->Ok_0;
        assert(r == seq![(f.0, c)] + rr);
        assert forall|idx: int| 0 <= idx < r.len() implies (#[trigger] r[idx]).0 == l[idx].0 && recorded_file(wt, rules, i, prefix, r[idx].0, r[idx].1)
            && m[l[idx].1] == encode_object(ObjectType::Blob, r[idx].1) by {
            if idx > 0 {
                assert(r[idx] == rr[idx - 1]);
                assert(rest[idx - 1] == l[idx]);
            }
        }
    }
}

proof fn lemma_recorded_elim(wt: WorkTree, rules: Seq<IgnoreRule>, i: int, prefix: Seq<u8>, k: int, p: Seq<u8>, c: Seq<u8>)
    requires
        0 <= k,
        recorded_from(wt, rules, i, prefix, k, p, c),
    ensures
        exists|k2: int| k <= k2 < wt.dirs@[i].entries@.len() && #[trigger] file_at(wt, rules, i, prefix, k2, p, c),
    decreases wt.dirs@[i].entries@.len() - k,
{
    if !file_at(wt, rules, i, prefix, k, p, c) {
        lemma_recorded_elim(wt, rules, i, prefix, k + 1, p, c);
        let k2 = choose|k2: int| k + 1 <= k2 < wt.dirs@[i].entries@.len() && #[trigger] file_at(wt, rules, i, prefix, k2, p, c);
        assert(file_at(wt, rules, i, prefix, k2, p, c));
    } else {
        assert(file_at(wt, rules, i, prefix, k, p, c));
    }
}

/// The entry that a kept entry `k2` of directory `i` records.
pub open spec fn view_at(wt: WorkTree, rules: Seq<IgnoreRule>, i: int, prefix: Seq<u8>, k2: int) -> EntryView {
    let x = wt.dirs@[i].entries@[k2];
    let path = join(prefix, x.name@);
    match x.node {
        WorkNode::File(c) => EntryView { mode: EntryMode::File, name: x.name@, hash: sha1_of(encode_object(ObjectType::Blob, c@)) },
        WorkNode::Dir(j) => EntryView { mode: EntryMode::Directory, name: x.name@, hash: dir_tree_hash(wt, rules, j as int, path) },
    }
}

proof fn lemma_built_has(wt: WorkTree, rules: Seq<IgnoreRule>, i: int, prefix: Seq<u8>, k: int, k2: int)
    requires
        0 <= i < wt.dirs@.len(),
        0 <= k <= k2 < wt.dirs@[i].entries@.len(),
        kept(rules, wt.dirs@[i].entries@[k2].name@, join(prefix, wt.dirs@[i].entries@[k2].name@)),
        wt.dirs@[i].entries@[k2].node matches WorkNode::Dir(j) ==> i < j < wt.dirs@.len(),
    ensures
        built_entries(wt, rules, i, prefix, k).contains(view_at(wt, rules, i, prefix, k2)),
    decreases k2 - k,
{
    let here = built_entries(wt, rules, i, prefix, k);
    let rest = built_entries(wt, rules, i, prefix, k + 1);
    let x = wt.dirs@[i].entries@[k];
    let path = join(prefix, x.name@);
    if k == k2 {
        assert(here[0] == view_at(wt, rules, i, prefix, k2));
    } else {
        lemma_built_has(wt, rules, i, prefix, k + 1, k2);
        let v = view_at(wt, rules, i, prefix, k2);
        let q = choose|q: int| 0 <= q < rest.len() && rest[q] == v;
        if here.len() == rest.len() + 1 && kept(rules, x.name@, path) {
            assert(here == seq![here[0]] + rest);
            assert(here[q + 1] == v);
        } else {
            assert(here == rest);
        }
    }
}

proof fn lemma_listing_has(m: Map<Seq<u8>, Seq<u8>>, prefix: Seq<u8>, es: Seq<EntryView>, fuel: nat, k: int, q: int)
    requires
        0 <= k <= q < es.len(),
        entries_tree_files(m, prefix, es, fuel, k) is Ok,
    ensures
        es[q].mode == EntryMode::File ==> entries_tree_files(m, prefix, es, fuel, k)->Ok_0.contains((join(prefix, es[q].name), es[q].hash)),
        es[q].mode == EntryMode::Directory ==> (tree_files(m, join(prefix, es[q].name), es[q].hash, fuel) matches Ok(sub)
            && forall|y: (Seq<u8>, Seq<u8>)| #[trigger] sub.contains(y) ==> entries_tree_files(m, prefix, es, fuel, k)->Ok_0.contains(y)),
    decreases q - k,
{
    let l = entries_tree_files(m, prefix, es, fuel, k)->Ok_0;
    let e = es[k];
    let path = join(prefix, e.name);
    let first = match e.mode {
        EntryMode::File => Ok::<Seq<(Seq<u8>, Seq<u8>)>, crate::error::VcsError>(seq![(path, e.hash)]),
        EntryMode::Directory => tree_files(m, path, e.hash, fuel),
    };
    let f = first->Ok_0;
    let rest = entries_tree_files(m, prefix, es, fuel, k + 1);
    assert(rest is Ok);
    let r = rest->Ok_0;
    assert(l == f + r);
    if k == q {
        if e.mode == EntryMode::File {
            assert(l[0] == (path, e.hash));
        } else {
            assert forall|y: (Seq<u8>, Seq<u8>)| #[trigger] f.contains(y) implies l.contains(y) by {
                let t = choose|t: int| 0 <= t < f.len() && f[t] == y;
                assert(l[t] == y);
            }
        }
    } else {
        lemma_listing_has(m, prefix, es, fuel, k + 1, q);
        assert forall|y: (Seq<u8>, Seq<u8>)| #[trigger] r.contains(y) implies l.contains(y) by {
            let t = choose|t: int| 0 <= t < r.len() && r[t] == y;
            assert(l[f.len() + t] == y);
        }
    }
}

proof fn lemma_dir_complete(m: Map<Seq<u8>, Seq<u8>>, wt: WorkTree, rules: Seq<IgnoreRule>, i: int, prefix: Seq<u8>, fuel: nat, p: Seq<u8>, c: Seq<u8>)
    requires
        0 <= i < wt.dirs@.len(),
        fuel >= wt.dirs@.len() - i,
        wt.wf(),
        stored_exactly(m, dir_writes(wt, rules, i, prefix)),
        recorded_from(wt, rules, i, prefix, 0, p, c),
    ensures
        tree_files(m, prefix, dir_tree_hash(wt, rules, i, prefix), fuel) matches Ok(l)
            && l.contains((p, sha1_of(encode_object(ObjectType::Blob, c)))),
    decreases wt.dirs@.len() - i,
{
    lemma_dir_read_back(m, wt, rules, i, prefix, fuel);
    lemma_entries_read_back(m, wt, rules, i, prefix, (fuel - 1) as nat, 0);
    let es = built_entries(wt, rules, i, prefix, 0);
    let sorted = sort_entries(es);
    lemma_sort_members(es);
    lemma_recorded_elim(wt, rules, i, prefix, 0, p, c);
    let k2 = choose|k2: int| 0 <= k2 < wt.dirs@[i].entries@.len() && #[trigger] file_at(wt, rules, i, prefix, k2, p, c);
    let x = wt.dirs@[i].entries@[k2];
    let path = join(prefix, x.name@);
    lemma_built_has(wt, rules, i, prefix, 0, k2);
    let v = view_at(wt, rules, i, prefix, k2);
    assert(sorted.contains(v));
    let q = choose|q: int| 0 <= q < sorted.len() && sorted[q] == v;
    // what the walk of the whole tree is made of
    let tb = dir_tree_bytes(wt, rules, i, prefix);
    let w = dir_writes(wt, rules, i, prefix);
    assert(w[w.len() - 1] == tb);
    assert(w.contains(tb));
    assert(decode_tree(m[dir_tree_hash(wt, rules, i, prefix)]) == Some(sorted));
    let l = entries_tree_files(m, prefix, sorted, (fuel - 1) as nat, 0)->Ok_0;
    assert(tree_files(m, prefix, dir_tree_hash(wt, rules, i, prefix), fuel) == Ok::<Seq<(Seq<u8>, Seq<u8>)>, crate::error::VcsError>(l));
    lemma_listing_has(m, prefix, sorted, (fuel - 1) as nat, 0, q);
    match x.node {
        WorkNode::File(fc) => {
            assert(p == path && c == fc@);
        },
        WorkNode::Dir(j) => {
            lemma_writes_at(wt, rules, i, prefix, 0, k2);
            assert forall|y: Seq<u8>| #[trigger] dir_writes(wt, rules, j as int, path).contains(y) implies m.contains_key(sha1_of(y))
                && m[sha1_of(y)] == y && sha1_of(y).len() == 20 by {
                lemma_in_dir_writes(wt, rules, i, prefix, y);
            }
            lemma_dir_complete(m, wt, rules, j as int, path, (fuel - 1) as nat, p, c);
        },
    }
}

proof fn lemma_blob_of_recorded(m: Map<Seq<u8>, Seq<u8>>, wt: WorkTree, rules: Seq<IgnoreRule>, i: int, prefix: Seq<u8>, p: Seq<u8>, c: Seq<u8>)
    requires
        0 <= i < wt.dirs@.len(),
        stored_exactly(m, dir_writes(wt, rules, i, prefix)),
        recorded_from(wt, rules, i, prefix, 0, p, c),
    ensures
        m[sha1_of(encode_object(ObjectType::Blob, c))] == encode_object(ObjectType::Blob, c),
    decreases wt.dirs@.len() - i,
{
    lemma_recorded_elim(wt, rules, i, prefix, 0, p, c);
    let k2 = choose|k2: int| 0 <= k2 < wt.dirs@[i].entries@.len() && #[trigger] file_at(wt, rules, i, prefix, k2, p, c);
    let x = wt.dirs@[i].entries@[k2];
    let path = join(prefix, x.name@);
    lemma_writes_at(wt, rules, i, prefix, 0, k2);
    match x.node {
        WorkNode::File(fc) => {
            lemma_in_dir_writes(wt, rules, i, prefix, encode_object(ObjectType::Blob, c));
        },
        WorkNode::Dir(j) => {
            assert forall|y: Seq<u8>| #[trigger] dir_writes(wt, rules, j as int, path).contains(y) implies m.contains_key(sha1_of(y))
                && m[sha1_of(y)] == y && sha1_of(y).len() == 20 by {
                lemma_in_dir_writes(wt, rules, i, prefix, y);
            }
            lemma_blob_of_recorded(m, wt, rules, j as int, path, p, c);
        },
    }
}

/// Checking out a built tree gives back exactly the files of the working
/// directory: where the store holds unchanged every object that building
/// the working directory wrote (no other stored object shares one of their
/// hashes), the working tree is well formed, and its directories are no
/// more than the walk's depth bound, walking the built tree succeeds,
/// reading its files' blobs succeeds, every file read back is one that the
/// working directory records at that path with the same contents, and every
/// recorded file is read back.
pub proof fn lemma_build_round_trip(m: Map<Seq<u8>, Seq<u8>>, wt: WorkTree, rules: Seq<IgnoreRule>)
    requires
        wt.dirs@.len() > 0,
        wt.dirs@.len() <= MAX_DEPTH,
        wt.wf(),
        stored_exactly(m, dir_writes(wt, rules, 0, seq![])),
    ensures
        tree_files(m, seq![], dir_tree_hash(wt, rules, 0, seq![]), MAX_DEPTH as nat) matches Ok(l)
            && restored(m, l) matches Ok(r)
            && (forall|idx: int| 0 <= idx < r.len() ==> recorded_file(wt, rules, 0, seq![], (#[trigger] r[idx]).0, r[idx].1))
            && (forall|p: Seq<u8>, c: Seq<u8>| #[trigger] recorded_file(wt, rules, 0, seq![], p, c) ==> r.contains((p, c))),
{
    lemma_dir_read_back(m, wt, rules, 0, seq![], MAX_DEPTH as nat);
    let l = tree_files(m, seq![], dir_tree_hash(wt, rules, 0, seq![]), MAX_DEPTH as nat)->Ok_0;
    lemma_restored_good(m, l, wt, rules, 0, seq![]);
    let r = restored(m, l)->Ok_0;
    assert forall|p: Seq<u8>, c: Seq<u8>| #[trigger] recorded_file(wt, rules, 0, seq![], p, c) implies r.contains((p, c)) by {
        lemma_dir_complete(m, wt, rules, 0, seq![], MAX_DEPTH as nat, p, c);
        let h = sha1_of(encode_object(ObjectType::Blob, c));
        let idx = choose|idx: int| 0 <= idx < l.len() && l[idx] == (p, h);
        // the blob stored under h is the file's own
        lemma_recorded_elim(wt, rules, 0, seq![], 0, p, c);
        assert(good(m, wt, rules, 0, seq![], l[idx]));
        let c2 = r[idx].1;
        assert(m[h] == encode_object(ObjectType::Blob, c2));
        lemma_blob_of_recorded(m, wt, rules, 0, seq![], p, c);
        lemma_object_round_trip(ObjectType::Blob, c);
        lemma_object_round_trip(ObjectType::Blob, c2);
        assert(r[idx] == (p, c));
    }
}

/// Two working trees list the same entries in each directory, in any
/// order.
pub open spec fn same_up_to_order(wt1: WorkTree, wt2: WorkTree) -> bool {
    &&& wt1.dirs@.len() == wt2.dirs@.len()
    &&& forall|i: int, x: WorkEntry|
        0 <= i < wt1.dirs@.len() ==> (#[trigger] wt1.dirs@[i].entries@.contains(x) <==> wt2.dirs@[i].entries@.contains(x))
}

proof fn lemma_member_moves(wt1: WorkTree, wt2: WorkTree, rules: Seq<IgnoreRule>, i: int, prefix: Seq<u8>, e: EntryView)
    requires
        wt1.wf(),
        wt2.wf(),
        same_up_to_order(wt1, wt2),
        0 <= i < wt1.dirs@.len(),
        built_entries(wt1, rules, i, prefix, 0).contains(e),
    ensures
        built_entries(wt2, rules, i, prefix, 0).contains(e),
    decreases wt1.dirs@.len() - i, 0int,
{
    lemma_origin(wt1, rules, i, prefix, 0, e);
    let k1 = choose|k1: int| 0 <= k1 < wt1.dirs@[i].entries@.len() && #[trigger] origin_at(wt1, rules, i, prefix, k1, e);
    let x = wt1.dirs@[i].entries@[k1];
    assert(wt1.dirs@[i].entries@.contains(x));
    assert(wt2.dirs@[i].entries@.contains(x));
    let k2 = choose|k2: int| 0 <= k2 < wt2.dirs@[i].entries@.len() && wt2.dirs@[i].entries@[k2] == x;
    let path = join(prefix, x.name@);
    match x.node {
        WorkNode::File(c) => {},
        WorkNode::Dir(j) => {
            lemma_same_tree_hash(wt1, wt2, rules, j as int, path);
        },
    }
    assert(view_at(wt2, rules, i, prefix, k2) == e);
    lemma_built_has(wt2, rules, i, prefix, 0, k2);
}

/// A tree's hash does not depend on the order in which its directories
/// list their entries: two well-formed working trees that list the same
/// entries in each directory, in any order, get the same tree hash for each
/// directory, the root included.
pub proof fn lemma_same_tree_hash(wt1: WorkTree, wt2: WorkTree, rules: Seq<IgnoreRule>, i: int, prefix: Seq<u8>)
    requires
        wt1.wf(),
        wt2.wf(),
        same_up_to_order(wt1, wt2),
        0 <= i < wt1.dirs@.len(),
    ensures
        dir_tree_hash(wt1, rules, i, prefix) == dir_tree_hash(wt2, rules, i, prefix),
    decreases wt1.dirs@.len() - i, 1int,
{
    assert(same_up_to_order(wt2, wt1));
    assert forall|e: EntryView| built_entries(wt1, rules, i, prefix, 0).contains(e) <==> built_entries(wt2, rules, i, prefix, 0).contains(e) by {
        if built_entries(wt1, rules, i, prefix, 0).contains(e) {
            lemma_member_moves(wt1, wt2, rules, i, prefix, e);
        }
        if built_entries(wt2, rules, i, prefix, 0).contains(e) {
            lemma_member_moves(wt2, wt1, rules, i, prefix, e);
        }
    }
    lemma_canonical_tree(wt1, i, prefix, wt2, i, prefix, rules);
}

} // verus!

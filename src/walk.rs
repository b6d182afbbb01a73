use vstd::prelude::*;
use crate::error::VcsError;
use crate::object::{decode_tree, parse_tree, EntryMode, EntryView, TreeEntry, entry_views};
use crate::store::ObjectStore;
use crate::bytes::to_bytes;
use crate::worktree::{file_views, join, join_path, FileHash};

verus! {

/// How deep trees may nest before a walk gives up.
pub const MAX_DEPTH: usize = 256;

/// A walk's result, with `done` put before the files it found.
pub open spec fn after(done: Seq<(Seq<u8>, Seq<u8>)>, r: Result<Seq<(Seq<u8>, Seq<u8>)>, VcsError>) -> Result<
    Seq<(Seq<u8>, Seq<u8>)>,
    VcsError,
> {
    match r {
        Ok(x) => Ok(done + x),
        Err(e) => Err(e),
    }
}

/// The files below the tree stored under `hash`, each with its blob's raw
/// hash, in the order of the entries; subtrees are walked where they stand,
/// at most `fuel` levels deep.
pub open spec fn tree_files(
    store: Map<Seq<u8>, Seq<u8>>,
    prefix: Seq<u8>,
    hash: Seq<u8>,
    fuel: nat,
) -> Result<Seq<(Seq<u8>, Seq<u8>)>, VcsError>
    decreases fuel, 0int,
{
    if fuel == 0 {
        Err(VcsError::TooDeep)
    } else if !store.contains_key(hash) {
        Err(VcsError::ObjectNotFound)
    } else {
        match decode_tree(store[hash]) {
            None => Err(VcsError::CorruptObject),
            Some(es) => entries_tree_files(store, prefix, es, (fuel - 1) as nat, 0),
        }
    }
}

/// The files below the entries of a tree from the `k`-th on.
pub open spec fn entries_tree_files(
    store: Map<Seq<u8>, Seq<u8>>,
    prefix: Seq<u8>,
    es: Seq<EntryView>,
    fuel: nat,
    k: int,
) -> Result<Seq<(Seq<u8>, Seq<u8>)>, VcsError>
    decreases fuel, 1int, es.len() - k,
{
    if 0 <= k < es.len() {
        let e = es[k];
        let path = join(prefix, e.name);
        let first = match e.mode {
            EntryMode::File => Ok(seq![(path, e.hash)]),
            EntryMode::Directory => tree_files(store, path, e.hash, fuel),
        };
        match first {
            Err(x) => Err(x),
            Ok(f) => after(f, entries_tree_files(store, prefix, es, fuel, k + 1)),
        }
    } else {
        Ok(seq![])
    }
}

fn walk_tree(store: &ObjectStore, prefix: &[u8], hash: &[u8], fuel: usize, out: &mut Vec<FileHash>) -> (r: Result<(), VcsError>)
    requires
        store.wf(),
    ensures
        match r {
            Ok(_) => tree_files(store@, prefix@, hash@, fuel as nat) == Ok::<Seq<(Seq<u8>, Seq<u8>)>, VcsError>(
                file_views(final(out)@).subrange(file_views(old(out)@).len() as int, file_views(final(out)@).len() as int))
                && file_views(final(out)@).subrange(0, file_views(old(out)@).len() as int) == file_views(old(out)@)
                && old(out)@.len() <= final(out)@.len(),
            Err(e) => tree_files(store@, prefix@, hash@, fuel as nat) == Err::<Seq<(Seq<u8>, Seq<u8>)>, VcsError>(e),
        },
    decreases fuel, 0int,
{
    if fuel == 0 {
        return Err(VcsError::TooDeep);
    }
    let data = store.get(hash)?;
    let entries = parse_tree(data.as_slice())?;
    let ghost es = entry_views(entries@);
    let ghost start = file_views(out@);
    let ghost f1 = (fuel - 1) as nat;
    assert(tree_files(store@, prefix@, hash@, fuel as nat) == entries_tree_files(store@, prefix@, es, f1, 0));
    let mut k: usize = 0;
    while k < entries.len()
        invariant
            store.wf(),
            fuel > 0,
            f1 == fuel - 1,
            es == entry_views(entries@),
            tree_files(store@, prefix@, hash@, fuel as nat) == entries_tree_files(store@, prefix@, es, f1, 0),
            k <= entries@.len(),
            file_views(out@).subrange(0, start.len() as int) == start,
            start.len() <= file_views(out@).len(),
            after(start, entries_tree_files(store@, prefix@, es, f1, 0)) == after(
                file_views(out@),
                entries_tree_files(store@, prefix@, es, f1, k as int),
            ),
        decreases entries@.len() - k,
    {
        let e: &TreeEntry = &entries[k];
        assert(es[k as int] == e@);
        let path = join_path(prefix, e.name.as_slice());
        let ghost before = file_views(out@);
        let ghost rest = entries_tree_files(store@, prefix@, es, f1, k + 1);
        match e.mode {
            EntryMode::File => {
                out.push(FileHash { path, hash: to_bytes(e.hash.as_slice()) });
                assert(file_views(out@) =~= before + seq![(join(prefix@, e.name@), e.hash@)]);
                proof {
                    match rest {
                        Ok(x) => {
                            assert(before + (seq![(join(prefix@, e.name@), e.hash@)] + x) =~= file_views(out@) + x);
                        },
                        Err(_) => {},
                    }
                }
            },
            EntryMode::Directory => {
                let sub = walk_tree(store, path.as_slice(), e.hash.as_slice(), fuel - 1, out);
                match sub {
                    Err(x) => {
                        proof {
                            assert(entries_tree_files(store@, prefix@, es, f1, k as int) == Err::<Seq<(Seq<u8>, Seq<u8>)>, VcsError>(x));
                            assert(after(before, entries_tree_files(store@, prefix@, es, f1, k as int)) == Err::<Seq<(Seq<u8>, Seq<u8>)>, VcsError>(x));
                            assert(after(start, entries_tree_files(store@, prefix@, es, f1, 0)) == Err::<Seq<(Seq<u8>, Seq<u8>)>, VcsError>(x));
                            assert(entries_tree_files(store@, prefix@, es, f1, 0) == Err::<Seq<(Seq<u8>, Seq<u8>)>, VcsError>(x));
                        }
                        return Err(x);
                    },
                    Ok(_) => {
                        proof {
                            let f = file_views(out@).subrange(before.len() as int, file_views(out@).len() as int);
                            assert(file_views(out@) =~= before + f);
                            match rest {
                                Ok(x) => {
                                    assert(before + (f + x) =~= file_views(out@) + x);
                                },
                                Err(_) => {},
                            }
                        }
                    },
                }
            },
        }
        proof {
            assert(file_views(out@).subrange(0, start.len() as int) =~= start);
        }
        k = k + 1;
    }
    proof {
        let all = entries_tree_files(store@, prefix@, es, f1, 0);
        assert(entries_tree_files(store@, prefix@, es, f1, k as int) == Ok::<Seq<(Seq<u8>, Seq<u8>)>, VcsError>(seq![]));
        assert(file_views(out@) + Seq::<(Seq<u8>, Seq<u8>)>::empty() =~= file_views(out@));
        match all {
            Ok(x) => {
                assert(start + x == file_views(out@));
                assert(file_views(out@).subrange(start.len() as int, file_views(out@).len() as int) =~= x);
            },
            Err(_) => {},
        }
    }
    Ok(())
}

/// The files of the tree stored under `tree_hash` (a raw hash), each with
/// its blob's raw hash, in walk order.
pub fn get_tree_files_map(store: &ObjectStore, tree_hash: &[u8]) -> (r: Result<Vec<FileHash>, VcsError>)
    requires
        store.wf(),
    ensures
        match r {
            Ok(fs) => tree_files(store@, seq![], tree_hash@, MAX_DEPTH as nat) == Ok::<Seq<(Seq<u8>, Seq<u8>)>, VcsError>(file_views(fs@)),
            Err(e) => tree_files(store@, seq![], tree_hash@, MAX_DEPTH as nat) == Err::<Seq<(Seq<u8>, Seq<u8>)>, VcsError>(e),
        },
{
    let mut out: Vec<FileHash> = Vec::new();
    let empty: Vec<u8> = Vec::new();
    assert(empty@ == Seq::<u8>::empty());
    walk_tree(store, empty.as_slice(), tree_hash, MAX_DEPTH, &mut out)?;
    assert(file_views(out@).subrange(0, file_views(out@).len() as int) =~= file_views(out@));
    Ok(out)
}

} // verus!

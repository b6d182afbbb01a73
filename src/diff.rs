use vstd::prelude::*;
use crate::bytes::{same_bytes, to_bytes};
use crate::error::{UnsafeReason, VcsError};
use crate::ignore::{ignored, is_ignored, IgnoreRule};
use crate::worktree::{file_views, FileHash};

verus! {

/// A (path, hash) listing.
pub type Listing = Seq<(Seq<u8>, Seq<u8>)>;

/// The hash that a listing gives a path: that of its first entry with that
/// path.
pub open spec fn lookup(s: Listing, p: Seq<u8>) -> Option<Seq<u8>>
    decreases s.len(),
{
    if s.len() == 0 {
        None
    } else if s[0].0 == p {
        Some(s[0].1)
    } else {
        lookup(s.drop_first(), p)
    }
}

/// The hash that a listing gives a path.
pub fn lookup_path(s: &[FileHash], p: &[u8]) -> (r: Option<Vec<u8>>)
    ensures
        match r {
            Some(h) => lookup(file_views(s@), p@) == Some(h@),
            None => lookup(file_views(s@), p@) is None,
        },
{
    let ghost all = file_views(s@);
    let mut i: usize = 0;
    assert(all.subrange(0, all.len() as int) =~= all);
    while i < s.len()
        invariant
            i <= s@.len(),
            all == file_views(s@),
            lookup(all, p@) == lookup(all.subrange(i as int, all.len() as int), p@),
        decreases s@.len() - i,
    {
        let ghost rest = all.subrange(i as int, all.len() as int);
        assert(rest[0] == (s@[i as int].path@, s@[i as int].hash@));
        if same_bytes(s[i].path.as_slice(), p) {
            return Some(to_bytes(s[i].hash.as_slice()));
        }
        assert(rest.drop_first() =~= all.subrange(i + 1, all.len() as int));
        i = i + 1;
    }
    None
}

/// How a working file stands against the current tree `c`.
pub open spec fn is_modified(c: Listing, f: (Seq<u8>, Seq<u8>)) -> bool {
    lookup(c, f.0) is Some && lookup(c, f.0) != Some(f.1)
}

pub open spec fn is_untracked(c: Listing, f: (Seq<u8>, Seq<u8>)) -> bool {
    lookup(c, f.0) is None
}

/// The paths of `w` whose files are modified against `c`, in order, leaving
/// out ignored paths.
pub open spec fn modified_paths(w: Listing, c: Listing, rules: Seq<IgnoreRule>) -> Seq<Seq<u8>>
    decreases w.len(),
{
    if w.len() == 0 {
        seq![]
    } else {
        let rest = modified_paths(w.drop_first(), c, rules);
        if !ignored(rules, w[0].0) && is_modified(c, w[0]) {
            seq![w[0].0] + rest
        } else {
            rest
        }
    }
}

/// The paths of `w` that `c` does not track, in order, leaving out ignored
/// paths.
pub open spec fn untracked_paths(w: Listing, c: Listing, rules: Seq<IgnoreRule>) -> Seq<Seq<u8>>
    decreases w.len(),
{
    if w.len() == 0 {
        seq![]
    } else {
        let rest = untracked_paths(w.drop_first(), c, rules);
        if !ignored(rules, w[0].0) && is_untracked(c, w[0]) {
            seq![w[0].0] + rest
        } else {
            rest
        }
    }
}

/// The paths of `c` that are absent from `w`, in order, leaving out ignored
/// paths.
pub open spec fn deleted_paths(w: Listing, c: Listing, rules: Seq<IgnoreRule>) -> Seq<Seq<u8>>
    decreases c.len(),
{
    if c.len() == 0 {
        seq![]
    } else {
        let rest = deleted_paths(w, c.drop_first(), rules);
        if !ignored(rules, c[0].0) && lookup(w, c[0].0) is None {
            seq![c[0].0] + rest
        } else {
            rest
        }
    }
}

/// The views of a list of paths.
pub open spec fn path_views(s: Seq<Vec<u8>>) -> Seq<Seq<u8>> {
    s.map_values(|p: Vec<u8>| p@)
}

/// The outcome of comparing the working directory with the current tree.
#[derive(Debug, Clone)]
pub struct StatusReport {
    pub modified: Vec<Vec<u8>>,
    pub deleted: Vec<Vec<u8>>,
    pub untracked: Vec<Vec<u8>>,
}

impl StatusReport {
    /// Nothing is modified, deleted or untracked.
    pub fn is_clean(&self) -> (r: bool)
        ensures
            r == (self.modified@.len() == 0 && self.deleted@.len() == 0 && self.untracked@.len()
                == 0),
    {
        self.modified.len() == 0 && self.deleted.len() == 0 && self.untracked.len() == 0
    }
}

/// Classifies the working files `work` against the current tree's files
/// `current`: modified and untracked paths in the order of `work`, deleted
/// paths in the order of `current`, ignored paths left out.
pub fn classify_status(work: &[FileHash], current: &[FileHash], rules: &[IgnoreRule]) -> (r: StatusReport)
    ensures
        path_views(r.modified@) == modified_paths(file_views(work@), file_views(current@), rules@),
        path_views(r.untracked@) == untracked_paths(file_views(work@), file_views(current@), rules@),
        path_views(r.deleted@) == deleted_paths(file_views(work@), file_views(current@), rules@),
{
    let ghost w = file_views(work@);
    let ghost c = file_views(current@);
    let mut modified: Vec<Vec<u8>> = Vec::new();
    let mut untracked: Vec<Vec<u8>> = Vec::new();
    let mut i: usize = 0;
    assert(w.subrange(0, w.len() as int) =~= w);
    assert(path_views(modified@) + modified_paths(w, c, rules@) =~= modified_paths(w, c, rules@));
    assert(path_views(untracked@) + untracked_paths(w, c, rules@) =~= untracked_paths(w, c, rules@));
    while i < work.len()
        invariant
            i <= work@.len(),
            w == file_views(work@),
            c == file_views(current@),
            modified_paths(w, c, rules@) == path_views(modified@) + modified_paths(
                w.subrange(i as int, w.len() as int),
                c,
                rules@,
            ),
            untracked_paths(w, c, rules@) == path_views(untracked@) + untracked_paths(
                w.subrange(i as int, w.len() as int),
                c,
                rules@,
            ),
        decreases work@.len() - i,
    {
        let ghost rest = w.subrange(i as int, w.len() as int);
        assert(rest.drop_first() =~= w.subrange(i + 1, w.len() as int));
        assert(rest[0] == (work@[i as int].path@, work@[i as int].hash@));
        let f = &work[i];
        let ghost m0 = path_views(modified@);
        let ghost u0 = path_views(untracked@);
        if !is_ignored(f.path.as_slice(), rules) {
            match lookup_path(current, f.path.as_slice()) {
                Some(h) => {
                    if !same_bytes(h.as_slice(), f.hash.as_slice()) {
                        modified.push(to_bytes(f.path.as_slice()));
                        assert(path_views(modified@) =~= m0 + seq![f.path@]);
                    }
                },
                None => {
                    untracked.push(to_bytes(f.path.as_slice()));
                    assert(path_views(untracked@) =~= u0 + seq![f.path@]);
                },
            }
        }
        assert(path_views(modified@) + modified_paths(rest.drop_first(), c, rules@) =~= m0
            + modified_paths(rest, c, rules@));
        assert(path_views(untracked@) + untracked_paths(rest.drop_first(), c, rules@) =~= u0
            + untracked_paths(rest, c, rules@));
        i = i + 1;
    }
    assert(path_views(modified@) + Seq::<Seq<u8>>::empty() =~= path_views(modified@));
    assert(path_views(untracked@) + Seq::<Seq<u8>>::empty() =~= path_views(untracked@));
    let mut deleted: Vec<Vec<u8>> = Vec::new();
    let mut j: usize = 0;
    assert(c.subrange(0, c.len() as int) =~= c);
    assert(path_views(deleted@) + deleted_paths(w, c, rules@) =~= deleted_paths(w, c, rules@));
    while j < current.len()
        invariant
            j <= current@.len(),
            w == file_views(work@),
            c == file_views(current@),
            deleted_paths(w, c, rules@) == path_views(deleted@) + deleted_paths(
                w,
                c.subrange(j as int, c.len() as int),
                rules@,
            ),
        decreases current@.len() - j,
    {
        let ghost rest = c.subrange(j as int, c.len() as int);
        assert(rest.drop_first() =~= c.subrange(j + 1, c.len() as int));
        assert(rest[0] == (current@[j as int].path@, current@[j as int].hash@));
        let f = &current[j];
        let ghost d0 = path_views(deleted@);
        if !is_ignored(f.path.as_slice(), rules) {
            if lookup_path(work, f.path.as_slice()).is_none() {
                deleted.push(to_bytes(f.path.as_slice()));
                assert(path_views(deleted@) =~= d0 + seq![f.path@]);
            }
        }
        assert(path_views(deleted@) + deleted_paths(w, rest.drop_first(), rules@) =~= d0
            + deleted_paths(w, rest, rules@));
        j = j + 1;
    }
    assert(path_views(deleted@) + Seq::<Seq<u8>>::empty() =~= path_views(deleted@));
    StatusReport { modified, deleted, untracked }
}

/// Why checking out a target `t` from the current tree `c` would endanger
/// the working file `f`, if it would: a file the current tree does not track
/// at a path the target writes, or a locally modified file that the target
/// replaces with something other than either the committed version or the
/// working bytes themselves.
pub open spec fn violation(c: Listing, t: Listing, f: (Seq<u8>, Seq<u8>)) -> Option<UnsafeReason> {
    let cur = lookup(c, f.0);
    let tgt = lookup(t, f.0);
    if cur is None && tgt is Some {
        Some(UnsafeReason::WouldOverwriteUntracked)
    } else if cur is Some && cur != Some(f.1) && tgt != cur && tgt != Some(f.1) {
        Some(UnsafeReason::WouldLoseLocalChanges)
    } else {
        None
    }
}

/// The first working file, in the order of `w`, that a checkout would
/// endanger, and why.
pub open spec fn first_violation(w: Listing, c: Listing, t: Listing) -> Option<
    (Seq<u8>, UnsafeReason),
>
    decreases w.len(),
{
    if w.len() == 0 {
        None
    } else {
        match violation(c, t, w[0]) {
            Some(why) => Some((w[0].0, why)),
            None => first_violation(w.drop_first(), c, t),
        }
    }
}

/// Checks that checking out the tree with files `target` over the working
/// files `work`, whose last commit had the files `current`, loses nothing:
/// no untracked file would be overwritten, and no local change would be
/// lost unless the target keeps the committed version or already holds the
/// working version.
pub fn checkout_safety_check(work: &[FileHash], current: &[FileHash], target: &[FileHash]) -> (r: Result<(), VcsError>)
    ensures
        match r {
            Ok(_) => first_violation(file_views(work@), file_views(current@), file_views(target@)) is None,
            Err(e) => first_violation(file_views(work@), file_views(current@), file_views(target@)) matches Some((p, why))
                && e == VcsError::UnsafeCheckout { path: e->path, reason: why } && e->path@ == p,
        },
{
    let ghost w = file_views(work@);
    let ghost c = file_views(current@);
    let ghost t = file_views(target@);
    let mut i: usize = 0;
    assert(w.subrange(0, w.len() as int) =~= w);
    while i < work.len()
        invariant
            i <= work@.len(),
            w == file_views(work@),
            c == file_views(current@),
            t == file_views(target@),
            first_violation(w, c, t) == first_violation(w.subrange(i as int, w.len() as int), c, t),
        decreases work@.len() - i,
    {
        let ghost rest = w.subrange(i as int, w.len() as int);
        assert(rest.drop_first() =~= w.subrange(i + 1, w.len() as int));
        let f = &work[i];
        assert(rest[0] == (f.path@, f.hash@));
        let cur = lookup_path(current, f.path.as_slice());
        let tgt = lookup_path(target, f.path.as_slice());
        match (&cur, &tgt) {
            (None, Some(_)) => {
                return Err(VcsError::UnsafeCheckout {
                    path: to_bytes(f.path.as_slice()),
                    reason: UnsafeReason::WouldOverwriteUntracked,
                });
            },
            (Some(ch), _) => {
                if !same_bytes(ch.as_slice(), f.hash.as_slice()) {
                    let keeps = match &tgt {
                        Some(th) => same_bytes(th.as_slice(), ch.as_slice()) || same_bytes(th.as_slice(), f.hash.as_slice()),
                        None => false,
                    };
                    if !keeps {
                        return Err(VcsError::UnsafeCheckout {
                            path: to_bytes(f.path.as_slice()),
                            reason: UnsafeReason::WouldLoseLocalChanges,
                        });
                    }
                }
            },
            (None, None) => {},
        }
        i = i + 1;
    }
    Ok(())
}

/// A checkout is refused when a file that the current tree does not track
/// stands at a path that the target writes.
pub proof fn lemma_untracked_overwrite_refused(w: Listing, c: Listing, t: Listing, i: int)
    requires
        0 <= i < w.len(),
        lookup(c, w[i].0) is None,
        lookup(t, w[i].0) is Some,
    ensures
        first_violation(w, c, t) is Some,
    decreases i,
{
    if i > 0 {
        if violation(c, t, w[0]) is None {
            assert(w.drop_first()[i - 1] == w[i]);
            lemma_untracked_overwrite_refused(w.drop_first(), c, t, i - 1);
        }
    }
}

/// A checkout goes through when every locally modified file is one that the
/// target either keeps at its committed version or already holds at its
/// working version, and the target writes no path that holds an untracked
/// file.
pub proof fn lemma_kept_modification_allowed(w: Listing, c: Listing, t: Listing)
    requires
        forall|i: int|
            0 <= i < w.len() ==> (lookup(c, (#[trigger] w[i]).0) is None ==> lookup(t, w[i].0) is None),
        forall|i: int|
            0 <= i < w.len() ==> (lookup(c, (#[trigger] w[i]).0) is Some && lookup(c, w[i].0) != Some(
                w[i].1,
            ) ==> lookup(t, w[i].0) == lookup(c, w[i].0) || lookup(t, w[i].0) == Some(w[i].1)),
    ensures
        first_violation(w, c, t) is None,
    decreases w.len(),
{
    if w.len() > 0 {
        assert(violation(c, t, w[0]) is None) by {
            assert(lookup(c, w[0].0) is None ==> lookup(t, w[0].0) is None);
            assert(lookup(c, w[0].0) is Some && lookup(c, w[0].0) != Some(w[0].1) ==> lookup(t, w[0].0)
                == lookup(c, w[0].0) || lookup(t, w[0].0) == Some(w[0].1));
        }
        let r = w.drop_first();
        assert forall|i: int| 0 <= i < r.len() implies (lookup(c, (#[trigger] r[i]).0) is None
            ==> lookup(t, r[i].0) is None) by {
            assert(r[i] == w[i + 1]);
        }
        assert forall|i: int| 0 <= i < r.len() implies (lookup(c, (#[trigger] r[i]).0) is Some
            && lookup(c, r[i].0) != Some(r[i].1) ==> lookup(t, r[i].0) == lookup(c, r[i].0) || lookup(t, r[i].0) == Some(r[i].1)) by {
            assert(r[i] == w[i + 1]);
        }
        lemma_kept_modification_allowed(r, c, t);
    }
}

/// A file whose hash differs from the committed one is listed as modified,
/// a committed file that is absent is listed as deleted, and a file that the
/// commit does not track is listed as untracked, unless ignored.
pub proof fn lemma_status_classification(w: Listing, c: Listing, rules: Seq<IgnoreRule>, p: Seq<u8>)
    requires
        !ignored(rules, p),
    ensures
        (lookup(w, p) is Some && lookup(c, p) is Some && lookup(w, p) != lookup(c, p))
            ==> modified_paths(w, c, rules).contains(p),
        (lookup(w, p) is Some && lookup(c, p) is None) ==> untracked_paths(w, c, rules).contains(p),
        (lookup(c, p) is Some && lookup(w, p) is None) ==> deleted_paths(w, c, rules).contains(p),
    decreases w.len() + c.len(),
{
    if w.len() > 0 {
        lemma_status_classification(w.drop_first(), c, rules, p);
        if w[0].0 == p {
            assert(modified_paths(w, c, rules)[0] == p || !(lookup(c, p) is Some && lookup(w, p) != lookup(c, p)));
            assert(untracked_paths(w, c, rules)[0] == p || !(lookup(c, p) is None));
        } else {
            let rm = modified_paths(w.drop_first(), c, rules);
            let ru = untracked_paths(w.drop_first(), c, rules);
            if rm.contains(p) {
                let k = choose|k: int| 0 <= k < rm.len() && rm[k] == p;
                if !ignored(rules, w[0].0) && is_modified(c, w[0]) {
                    assert((seq![w[0].0] + rm)[k + 1] == p);
                }
            }
            if ru.contains(p) {
                let k = choose|k: int| 0 <= k < ru.len() && ru[k] == p;
                if !ignored(rules, w[0].0) && is_untracked(c, w[0]) {
                    assert((seq![w[0].0] + ru)[k + 1] == p);
                }
            }
        }
    }
    if c.len() > 0 {
        lemma_status_classification(w, c.drop_first(), rules, p);
        if c[0].0 == p {
            assert(lookup(w, p) is None ==> deleted_paths(w, c, rules)[0] == p);
        } else {
            let rd = deleted_paths(w, c.drop_first(), rules);
            if rd.contains(p) {
                let k = choose|k: int| 0 <= k < rd.len() && rd[k] == p;
                if !ignored(rules, c[0].0) && lookup(w, c[0].0) is None {
                    assert((seq![c[0].0] + rd)[k + 1] == p);
                }
            }
        }
    }
}

} // verus!

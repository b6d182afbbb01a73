use vstd::prelude::*;
use crate::bytes::{copy_range, has_prefix, same_bytes, starts_with, to_bytes};
use crate::text::{trim, trim_of};
use crate::error::VcsError;
use crate::repo::Head;

verus! {

/// The metadata paths that a repository must have, relative to its root:
/// `.rustygit`, `.rustygit/objects`, `.rustygit/refs`,
/// `.rustygit/refs/heads` and `.rustygit/HEAD`.
pub open spec fn required_paths() -> Seq<Seq<u8>> {
    seq![
        seq![46u8, 114, 117, 115, 116, 121, 103, 105, 116],
        seq![46u8, 114, 117, 115, 116, 121, 103, 105, 116, 47, 111, 98, 106, 101, 99, 116, 115],
        seq![46u8, 114, 117, 115, 116, 121, 103, 105, 116, 47, 114, 101, 102, 115],
        seq![46u8, 114, 117, 115, 116, 121, 103, 105, 116, 47, 114, 101, 102, 115, 47, 104, 101, 97, 100, 115],
        seq![46u8, 114, 117, 115, 116, 121, 103, 105, 116, 47, 72, 69, 65, 68],
    ]
}

fn required_path(i: usize) -> (r: Vec<u8>)
    requires
        i < 5,
    ensures
        r@ == required_paths()[i as int],
{
    let mut r: Vec<u8> = vec![46u8, 114, 117, 115, 116, 121, 103, 105, 116];
    if i == 1 {
        r.push(47u8); r.push(111u8); r.push(98u8); r.push(106u8); r.push(101u8); r.push(99u8); r.push(116u8); r.push(115u8);
    } else if i == 2 || i == 3 {
        r.push(47u8); r.push(114u8); r.push(101u8); r.push(102u8); r.push(115u8);
        if i == 3 {
            r.push(47u8); r.push(104u8); r.push(101u8); r.push(97u8); r.push(100u8); r.push(115u8);
        }
    } else if i == 4 {
        r.push(47u8); r.push(72u8); r.push(69u8); r.push(65u8); r.push(68u8);
    }
    assert(r@ =~= required_paths()[i as int]);
    r
}

/// The views of a list of paths.
pub open spec fn paths_view(s: Seq<Vec<u8>>) -> Seq<Seq<u8>> {
    s.map_values(|p: Vec<u8>| p@)
}

/// Checks that every required metadata path is among `present`, the paths
/// that exist below the root.
pub fn ensure_repo_exists(present: &[Vec<u8>]) -> (r: Result<(), VcsError>)
    ensures
        r is Ok <==> forall|i: int| 0 <= i < 5 ==> paths_view(present@).contains(#[trigger] required_paths()[i]),
        r matches Err(e) ==> e == VcsError::RepositoryNotFound,
{
    let mut i: usize = 0;
    while i < 5
        invariant
            i <= 5,
            forall|j: int| 0 <= j < i ==> paths_view(present@).contains(#[trigger] required_paths()[j]),
        decreases 5 - i,
    {
        let want = required_path(i);
        let mut found = false;
        let mut k: usize = 0;
        while k < present.len()
            invariant
                k <= present@.len(),
                found ==> paths_view(present@).contains(want@),
                !found ==> forall|j: int| 0 <= j < k ==> present@[j]@ != want@,
            decreases present@.len() - k,
        {
            if same_bytes(present[k].as_slice(), want.as_slice()) {
                assert(paths_view(present@)[k as int] == want@);
                found = true;
            }
            k = k + 1;
        }
        if !found {
            assert(!paths_view(present@).contains(want@));
            return Err(VcsError::RepositoryNotFound);
        }
        i = i + 1;
    }
    Ok(())
}

/// `ref: refs/heads/`
pub open spec fn head_ref_prefix() -> Seq<u8> {
    seq![114u8, 101, 102, 58, 32, 114, 101, 102, 115, 47, 104, 101, 97, 100, 115, 47]
}

/// `ref: `
pub open spec fn ref_prefix() -> Seq<u8> {
    seq![114u8, 101, 102, 58, 32]
}

/// What HEAD's contents say, once trimmed: a branch after
/// `ref: refs/heads/`, a malformed reference after any other `ref: `, and
/// otherwise a commit hash.
pub open spec fn head_of(t: Seq<u8>) -> Option<(bool, Seq<u8>)> {
    if starts_with(t, head_ref_prefix()) {
        Some((true, t.subrange(16, t.len() as int)))
    } else if starts_with(t, ref_prefix()) {
        None
    } else {
        Some((false, t))
    }
}

/// Reads the contents of the HEAD file.
pub fn parse_head(content: &[u8]) -> (r: Result<Head, VcsError>)
    ensures
        match head_of(trim_of(content@)) {
            None => r == Err::<Head, VcsError>(VcsError::UnresolvedHead),
            Some((true, b)) => r matches Ok(Head::Attached(n)) && n@ == b,
            Some((false, h)) => r matches Ok(Head::Detached(n)) && n@ == h,
        },
{
    let t = trim(content);
    let p: Vec<u8> = vec![114u8, 101, 102, 58, 32, 114, 101, 102, 115, 47, 104, 101, 97, 100, 115, 47];
    let q: Vec<u8> = vec![114u8, 101, 102, 58, 32];
    assert(p@ == head_ref_prefix());
    assert(q@ == ref_prefix());
    if has_prefix(t.as_slice(), p.as_slice()) {
        Ok(Head::Attached(copy_range(t.as_slice(), 16, t.len())))
    } else if has_prefix(t.as_slice(), q.as_slice()) {
        Err(VcsError::UnresolvedHead)
    } else {
        Ok(Head::Detached(t))
    }
}

/// The contents of the HEAD file: `ref: refs/heads/<name>` and a line end
/// for a branch, the bare hash for a commit.
pub fn format_head(head: &Head) -> (r: Vec<u8>)
    ensures
        match head {
            Head::Attached(b) => r@ == head_ref_prefix() + b@ + seq![10u8],
            Head::Detached(h) => r@ == h@,
        },
{
    match head {
        Head::Attached(b) => {
            let mut r: Vec<u8> = vec![114u8, 101, 102, 58, 32, 114, 101, 102, 115, 47, 104, 101, 97, 100, 115, 47];
            crate::bytes::append_bytes(&mut r, b.as_slice());
            r.push(10u8);
            r
        },
        Head::Detached(h) => to_bytes(h.as_slice()),
    }
}

} // verus!

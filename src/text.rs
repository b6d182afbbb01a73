use vstd::prelude::*;
use crate::bytes::{copy_range, find_byte, first_index, has_byte};

verus! {

/// An ASCII whitespace byte.
pub open spec fn is_space(b: u8) -> bool {
    b == 32 || b == 9 || b == 10 || b == 13 || b == 12 || b == 11
}

/// `s` without trailing whitespace.
pub open spec fn trim_end(s: Seq<u8>) -> Seq<u8>
    decreases s.len(),
{
    if s.len() > 0 && is_space(s.last()) {
        trim_end(s.drop_last())
    } else {
        s
    }
}

/// `s` without leading whitespace.
pub open spec fn trim_start(s: Seq<u8>) -> Seq<u8>
    decreases s.len(),
{
    if s.len() > 0 && is_space(s[0]) {
        trim_start(s.drop_first())
    } else {
        s
    }
}

/// `s` without leading and trailing whitespace.
pub open spec fn trim_of(s: Seq<u8>) -> Seq<u8> {
    trim_start(trim_end(s))
}

fn space(b: u8) -> (r: bool)
    ensures
        r == is_space(b),
{
    b == 32 || b == 9 || b == 10 || b == 13 || b == 12 || b == 11
}

/// `s` without leading and trailing ASCII whitespace.
pub fn trim(s: &[u8]) -> (r: Vec<u8>)
    ensures
        r@ == trim_of(s@),
{
    let mut hi: usize = s.len();
    assert(s@.subrange(0, hi as int) =~= s@);
    while hi > 0 && space(s[hi - 1])
        invariant
            hi <= s@.len(),
            trim_end(s@) == trim_end(s@.subrange(0, hi as int)),
        decreases hi,
    {
        assert(s@.subrange(0, hi as int).drop_last() =~= s@.subrange(0, hi - 1));
        hi = hi - 1;
    }
    let mut lo: usize = 0;
    assert(trim_end(s@) == s@.subrange(0, hi as int));
    assert(s@.subrange(0, hi as int) =~= s@.subrange(lo as int, hi as int));
    while lo < hi && space(s[lo])
        invariant
            lo <= hi <= s@.len(),
            trim_of(s@) == trim_start(s@.subrange(lo as int, hi as int)),
        decreases hi - lo,
    {
        assert(s@.subrange(lo as int, hi as int).drop_first() =~= s@.subrange(lo + 1, hi as int));
        lo = lo + 1;
    }
    copy_range(s, lo, hi)
}

/// The lines of `s`: the pieces between line ends, with no empty piece
/// after a final line end.
pub open spec fn lines_of(s: Seq<u8>) -> Seq<Seq<u8>>
    decreases s.len(),
{
    if s.len() == 0 {
        seq![]
    } else if !has_byte(s, 10) {
        seq![s]
    } else {
        let k = first_index(s, 10);
        if 0 <= k < s.len() {
            seq![s.subrange(0, k)] + lines_of(s.subrange(k + 1, s.len() as int))
        } else {
            seq![]
        }
    }
}

/// The views of a list of byte strings.
pub open spec fn views(s: Seq<Vec<u8>>) -> Seq<Seq<u8>> {
    s.map_values(|v: Vec<u8>| v@)
}

/// Splits `s` into lines.
pub fn split_lines(s: &[u8]) -> (r: Vec<Vec<u8>>)
    ensures
        views(r@) == lines_of(s@),
{
    let mut out: Vec<Vec<u8>> = Vec::new();
    let mut pos: usize = 0;
    assert(s@.subrange(0, s@.len() as int) =~= s@);
    assert(views(out@) + lines_of(s@) =~= lines_of(s@));
    while pos < s.len()
        invariant
            pos <= s@.len(),
            lines_of(s@) == views(out@) + lines_of(s@.subrange(pos as int, s@.len() as int)),
        decreases s@.len() - pos,
    {
        let rest = &s[pos..s.len()];
        let ghost rs = rest@;
        assert(rs == s@.subrange(pos as int, s@.len() as int));
        let ghost before = views(out@);
        match find_byte(rest, 10u8) {
            None => {
                out.push(copy_range(s, pos, s.len()));
                assert(views(out@) =~= before + lines_of(rs));
                assert(views(out@) + lines_of(s@.subrange(s@.len() as int, s@.len() as int)) =~= views(out@));
                pos = s.len();
            },
            Some(k) => {
                out.push(copy_range(rest, 0, k));
                assert(rs.subrange(k + 1, rs.len() as int) =~= s@.subrange(pos + k + 1, s@.len() as int));
                assert(views(out@) + lines_of(rs.subrange(k + 1, rs.len() as int)) =~= before + lines_of(rs));
                pos = pos + k + 1;
            },
        }
    }
    assert(views(out@) + Seq::<Seq<u8>>::empty() =~= views(out@));
    out
}

} // verus!

use vstd::prelude::*;
use crate::bytes::{append_bytes, copy_range, find_byte, first_index, has_byte, has_prefix, is_first,
    lemma_first_index, starts_with,
};
use crate::object::{encode_object, format_object, signed_decimal, signed_decimal_bytes, ObjectType};

verus! {

/// `tree ` at the start of a commit's first line.
pub open spec fn tree_kw() -> Seq<u8> {
    seq![116u8, 114, 101, 101, 32]
}

/// `parent ` at the start of a commit's parent line.
pub open spec fn parent_kw() -> Seq<u8> {
    seq![112u8, 97, 114, 101, 110, 116, 32]
}

/// `author`
pub open spec fn author_kw() -> Seq<u8> {
    seq![97u8, 117, 116, 104, 111, 114]
}

/// `committer`
pub open spec fn committer_kw() -> Seq<u8> {
    seq![99u8, 111, 109, 109, 105, 116, 116, 101, 114]
}

/// A name and an e-mail address.
#[derive(Debug, Clone)]
pub struct User {
    pub name: Vec<u8>,
    pub email: Vec<u8>,
}

/// The fields of a commit.
#[derive(Debug, Clone)]
pub struct CommitObject {
    /// Hex text of the tree's hash.
    pub tree_hash: Vec<u8>,
    /// Hex text of the parent's hash; `None` for a root commit.
    pub parent: Option<Vec<u8>>,
    pub author: User,
    pub committer: User,
    pub message: Vec<u8>,
    /// Seconds since the Unix epoch.
    pub timestamp: i64,
    /// The offset from UTC, such as `+0530`.
    pub timezone: Vec<u8>,
}

/// The view of an optional byte string.
pub open spec fn opt_view(o: Option<Vec<u8>>) -> Option<Seq<u8>> {
    match o {
        Some(v) => Some(v@),
        None => None,
    }
}

/// `"<label> <name> <<email>> <timestamp> <timezone>\n"`
pub open spec fn person_line(label: Seq<u8>, u: User, ts: int, tz: Seq<u8>) -> Seq<u8> {
    label + seq![32u8] + u.name@ + seq![32u8, 60] + u.email@ + seq![62u8, 32] + signed_decimal(ts)
        + seq![32u8] + tz + seq![10u8]
}

/// `"parent <hash>\n"` where there is a parent, else nothing.
pub open spec fn parent_line(p: Option<Seq<u8>>) -> Seq<u8> {
    match p {
        Some(h) => parent_kw() + h + seq![10u8],
        None => seq![],
    }
}

/// The payload of a commit with the given fields: the `tree`, `parent`,
/// `author` and `committer` lines, a blank line, and the message.
pub open spec fn payload_of(
    tree: Seq<u8>,
    parent: Option<Seq<u8>>,
    author: User,
    committer: User,
    message: Seq<u8>,
    ts: int,
    tz: Seq<u8>,
) -> Seq<u8> {
    tree_kw() + tree + seq![10u8] + parent_line(parent) + person_line(author_kw(), author, ts, tz)
        + person_line(committer_kw(), committer, ts, tz) + seq![10u8] + message
}

/// The payload of a commit.
pub open spec fn commit_payload(c: CommitObject) -> Seq<u8> {
    payload_of(
        c.tree_hash@,
        opt_view(c.parent),
        c.author,
        c.committer,
        c.message@,
        c.timestamp as int,
        c.timezone@,
    )
}

fn push_person_line(out: &mut Vec<u8>, label: Vec<u8>, u: &User, ts: i64, tz: &[u8])
    ensures
        final(out)@ == old(out)@ + person_line(label@, *u, ts as int, tz@),
{
    append_bytes(out, label.as_slice());
    out.push(32u8);
    append_bytes(out, u.name.as_slice());
    out.push(32u8);
    out.push(60u8);
    append_bytes(out, u.email.as_slice());
    out.push(62u8);
    out.push(32u8);
    let d = signed_decimal_bytes(ts);
    append_bytes(out, d.as_slice());
    out.push(32u8);
    append_bytes(out, tz);
    out.push(10u8);
    assert(out@ =~= old(out)@ + person_line(label@, *u, ts as int, tz@));
}

/// Writes the payload of a commit.
pub fn format_commit(c: &CommitObject) -> (r: Vec<u8>)
    ensures
        r@ == commit_payload(*c),
{
    let mut out: Vec<u8> = vec![116u8, 114, 101, 101, 32];
    append_bytes(&mut out, c.tree_hash.as_slice());
    out.push(10u8);
    let ghost before_parent = out@;
    match &c.parent {
        Some(p) => {
            let kw: Vec<u8> = vec![112u8, 97, 114, 101, 110, 116, 32];
            append_bytes(&mut out, kw.as_slice());
            append_bytes(&mut out, p.as_slice());
            out.push(10u8);
        },
        None => {},
    }
    assert(out@ =~= before_parent + parent_line(opt_view(c.parent)));
    push_person_line(&mut out, vec![97u8, 117, 116, 104, 111, 114], &c.author, c.timestamp, c.timezone.as_slice());
    push_person_line(
        &mut out,
        vec![99u8, 111, 109, 109, 105, 116, 116, 101, 114],
        &c.committer,
        c.timestamp,
        c.timezone.as_slice(),
    );
    out.push(10u8);
    append_bytes(&mut out, c.message.as_slice());
    assert(out@ =~= commit_payload(*c));
    out
}

/// The stored bytes of a commit.
pub fn encode_commit(c: &CommitObject) -> (r: Vec<u8>)
    ensures
        r@ == encode_object(ObjectType::Commit, commit_payload(*c)),
{
    let payload = format_commit(c);
    format_object(ObjectType::Commit, payload.as_slice())
}

/// The tree named by a commit payload: the text after `tree ` on its first
/// line.
pub open spec fn commit_tree(p: Seq<u8>) -> Option<Seq<u8>> {
    if starts_with(p, tree_kw()) && has_byte(p, 10) && first_index(p, 10) >= 5 {
        Some(p.subrange(5, first_index(p, 10)))
    } else {
        None
    }
}

/// The parent named by a commit payload: the text after `parent ` on its
/// second line, where that line is a parent line.
pub open spec fn commit_parent(p: Seq<u8>) -> Option<Seq<u8>> {
    if has_byte(p, 10) && 0 <= first_index(p, 10) < p.len() {
        let after = p.subrange(first_index(p, 10) + 1, p.len() as int);
        if starts_with(after, parent_kw()) && has_byte(after, 10) && first_index(after, 10) >= 7 {
            Some(after.subrange(7, first_index(after, 10)))
        } else {
            None
        }
    } else {
        None
    }
}

/// Reads the tree hash named by a commit payload.
pub fn read_commit_tree(p: &[u8]) -> (r: Option<Vec<u8>>)
    ensures
        opt_view(r) == commit_tree(p@),
{
    let kw: Vec<u8> = vec![116u8, 114, 101, 101, 32];
    assert(kw@ == tree_kw());
    if !has_prefix(p, kw.as_slice()) {
        return None;
    }
    match find_byte(p, 10u8) {
        None => None,
        Some(k) => {
            if k < 5 {
                None
            } else {
                Some(copy_range(p, 5, k))
            }
        },
    }
}

/// Reads the parent hash named by a commit payload.
pub fn read_commit_parent(p: &[u8]) -> (r: Option<Vec<u8>>)
    ensures
        opt_view(r) == commit_parent(p@),
{
    match find_byte(p, 10u8) {
        None => None,
        Some(k) => {
            let n = p.len();
            assert(k < n);
            let after = &p[k + 1..n];
            assert(after@ == p@.subrange(k + 1, p@.len() as int));
            let kw: Vec<u8> = vec![112u8, 97, 114, 101, 110, 116, 32];
            assert(kw@ == parent_kw());
            if !has_prefix(after, kw.as_slice()) {
                return None;
            }
            match find_byte(after, 10u8) {
                None => None,
                Some(j) => {
                    if j < 7 {
                        None
                    } else {
                        Some(copy_range(after, 7, j))
                    }
                },
            }
        },
    }
}

proof fn lemma_first_line(kw: Seq<u8>, t: Seq<u8>, rest: Seq<u8>)
    requires
        !has_byte(t, 10),
        !has_byte(kw, 10),
    ensures
        ({
            let p = kw + t + seq![10u8] + rest;
            let k = kw.len() as int + t.len() as int;
            &&& has_byte(p, 10)
            &&& first_index(p, 10) == k
            &&& p.subrange(0, kw.len() as int) == kw
            &&& p.subrange(kw.len() as int, k) == t
            &&& p.subrange(k + 1, p.len() as int) == rest
        }),
{
    let p = kw + t + seq![10u8] + rest;
    let k: int = kw.len() as int + t.len() as int;
    assert(p[k] == 10u8);
    assert forall|j: int| 0 <= j < k implies p[j] != 10u8 by {
        if j >= kw.len() {
            assert(p[j] == t[j - kw.len()]);
        } else {
            assert(p[j] == kw[j]);
        }
    }
    assert(is_first(p, 10u8, k));
    lemma_first_index(p, 10u8, k);
    assert(p.subrange(0, kw.len() as int) =~= kw);
    assert(p.subrange(kw.len() as int, k) =~= t);
    assert(p.subrange(k + 1, p.len() as int) =~= rest);
}

/// A commit written by `format_commit` reads back with the tree and parent it
/// was written with, where neither holds a line end.
pub proof fn lemma_commit_round_trip(c: CommitObject)
    requires
        !has_byte(c.tree_hash@, 10),
        c.parent matches Some(h) ==> !has_byte(h@, 10),
    ensures
        commit_tree(commit_payload(c)) == Some(c.tree_hash@),
        commit_parent(commit_payload(c)) == opt_view(c.parent),
{
    let p = commit_payload(c);
    let t = c.tree_hash@;
    let people = person_line(author_kw(), c.author, c.timestamp as int, c.timezone@)
        + person_line(committer_kw(), c.committer, c.timestamp as int, c.timezone@) + seq![10u8]
        + c.message@;
    let after_tree = parent_line(opt_view(c.parent)) + people;
    assert(p =~= tree_kw() + t + seq![10u8] + after_tree);
    assert(!has_byte(tree_kw(), 10)) by {
        assert forall|j: int| 0 <= j < 5 implies tree_kw()[j] != 10u8 by {}
    }
    lemma_first_line(tree_kw(), t, after_tree);
    let after = p.subrange(5 + t.len() as int + 1, p.len() as int);
    assert(after == after_tree);
    assert(people[0] == 97u8);
    match c.parent {
        Some(h) => {
            assert(!has_byte(parent_kw(), 10)) by {
                assert forall|j: int| 0 <= j < 7 implies parent_kw()[j] != 10u8 by {}
            }
            assert(after_tree =~= parent_kw() + h@ + seq![10u8] + people);
            lemma_first_line(parent_kw(), h@, people);
        },
        None => {
            assert(after_tree =~= people);
            if starts_with(after, parent_kw()) {
                assert(after.subrange(0, 7)[0] == 97u8);
            }
        },
    }
}

} // verus!

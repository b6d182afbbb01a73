use vstd::prelude::*;
use crate::bytes::{
    append_bytes, copy_range, find_byte, first_index, has_byte, has_prefix, is_first,
    lemma_first_index, starts_with,
};
use crate::error::VcsError;

verus! {

/// The three kinds of stored object.
#[derive(Debug, Clone, Copy, PartialEq, Eq, Structural)]
pub enum ObjectType {
    Blob,
    Tree,
    Commit,
}

impl ObjectType {
    /// The kind's tag in an object header: `blob`, `tree` or `commit`.
    pub open spec fn tag(self) -> Seq<u8> {
        match self {
            ObjectType::Blob => seq![98u8, 108, 111, 98],
            ObjectType::Tree => seq![116u8, 114, 101, 101],
            ObjectType::Commit => seq![99u8, 111, 109, 109, 105, 116],
        }
    }

    /// The kind's tag as characters.
    pub open spec fn name(self) -> Seq<char> {
        match self {
            ObjectType::Blob => seq!['b', 'l', 'o', 'b'],
            ObjectType::Tree => seq!['t', 'r', 'e', 'e'],
            ObjectType::Commit => seq!['c', 'o', 'm', 'm', 'i', 't'],
        }
    }

    /// The kind's tag as text.
    pub fn as_str(&self) -> (r: &'static str)
        ensures
            r@ == self.name(),
    {
        proof {
            reveal_strlit("blob");
            reveal_strlit("tree");
            reveal_strlit("commit");
        }
        match self {
            ObjectType::Blob => "blob",
            ObjectType::Tree => "tree",
            ObjectType::Commit => "commit",
        }
    }

    /// The kind's tag as bytes.
    pub fn tag_bytes(&self) -> (r: Vec<u8>)
        ensures
            r@ == self.tag(),
    {
        match self {
            ObjectType::Blob => vec![98u8, 108, 111, 98],
            ObjectType::Tree => vec![116u8, 114, 101, 101],
            ObjectType::Commit => vec![99u8, 111, 109, 109, 105, 116],
        }
    }
}

/// The decimal digits of a natural number, most significant first.
pub open spec fn decimal(n: nat) -> Seq<u8>
    decreases n,
{
    if n < 10 {
        seq![(48 + n) as u8]
    } else {
        decimal(n / 10) + seq![(48 + n % 10) as u8]
    }
}

/// An integer in decimal, with a leading `-` when negative.
pub open spec fn signed_decimal(i: int) -> Seq<u8> {
    if i < 0 {
        seq![45u8] + decimal((-i) as nat)
    } else {
        decimal(i as nat)
    }
}

/// The decimal digits of `n`.
pub fn decimal_bytes(n: u64) -> (r: Vec<u8>)
    ensures
        r@ == decimal(n as nat),
    decreases n,
{
    if n < 10 {
        vec![(48 + n) as u8]
    } else {
        let mut v = decimal_bytes(n / 10);
        v.push((48 + n % 10) as u8);
        v
    }
}

/// `i` in decimal, signed.
pub fn signed_decimal_bytes(i: i64) -> (r: Vec<u8>)
    ensures
        r@ == signed_decimal(i as int),
{
    if i < 0 {
        let m: u64 = (0i128 - (i as i128)) as u64;
        let mut v: Vec<u8> = vec![45u8];
        let d = decimal_bytes(m);
        append_bytes(&mut v, d.as_slice());
        v
    } else {
        decimal_bytes(i as u64)
    }
}

/// Decimal digits are ASCII digits: none is NUL, a space or a line end.
pub proof fn lemma_decimal_digits(n: nat)
    ensures
        decimal(n).len() >= 1,
        forall|i: int| 0 <= i < decimal(n).len() ==> 48 <= #[trigger] decimal(n)[i] <= 57,
    decreases n,
{
    if n >= 10 {
        lemma_decimal_digits(n / 10);
    }
}

/// The header that starts an object of `kind` with a payload of `n` bytes.
pub open spec fn header(kind: ObjectType, n: nat) -> Seq<u8> {
    kind.tag() + seq![32u8] + decimal(n) + seq![0u8]
}

/// An object's stored bytes: `"<kind> <payload length>\0"` and the payload.
pub open spec fn encode_object(kind: ObjectType, payload: Seq<u8>) -> Seq<u8> {
    header(kind, payload.len()) + payload
}

/// The payload of stored bytes that claim to be of `kind`: what follows the
/// first NUL, provided the text before it starts with the kind's tag and a
/// space.
pub open spec fn object_payload(kind: ObjectType, data: Seq<u8>) -> Option<Seq<u8>> {
    if has_byte(data, 0) && starts_with(
        data.subrange(0, first_index(data, 0)),
        kind.tag() + seq![32u8],
    ) {
        Some(data.subrange(first_index(data, 0) + 1, data.len() as int))
    } else {
        None
    }
}

/// Frames a payload with its object header.
pub fn format_object(kind: ObjectType, contents: &[u8]) -> (r: Vec<u8>)
    ensures
        r@ == encode_object(kind, contents@),
{
    let mut r = kind.tag_bytes();
    r.push(32u8);
    let d = decimal_bytes(contents.len() as u64);
    append_bytes(&mut r, d.as_slice());
    r.push(0u8);
    append_bytes(&mut r, contents);
    r
}

/// Reads the payload of stored bytes of the given kind.
pub fn split_object(kind: ObjectType, data: &[u8]) -> (r: Result<Vec<u8>, VcsError>)
    ensures
        match r {
            Ok(p) => object_payload(kind, data@) == Some(p@),
            Err(e) => object_payload(kind, data@) is None && e == VcsError::CorruptObject,
        },
{
    match find_byte(data, 0u8) {
        None => Err(VcsError::CorruptObject),
        Some(k) => {
            let mut expected = kind.tag_bytes();
            expected.push(32u8);
            assert(expected@ =~= kind.tag() + seq![32u8]);
            let n = data.len();
            assert(is_first(data@, 0u8, k as int));
            let head = &data[0..k];
            assert(head@ == data@.subrange(0, k as int));
            assert(has_byte(data@, 0u8));
            if has_prefix(head, expected.as_slice()) {
                Ok(copy_range(data, k + 1, n))
            } else {
                Err(VcsError::CorruptObject)
            }
        }
    }
}

/// The bytes of a blob: its payload.
pub fn parse_blob(data: &[u8]) -> (r: Result<Vec<u8>, VcsError>)
    ensures
        match r {
            Ok(p) => object_payload(ObjectType::Blob, data@) == Some(p@),
            Err(e) => object_payload(ObjectType::Blob, data@) is None && e
                == VcsError::CorruptObject,
        },
{
    split_object(ObjectType::Blob, data)
}

/// The payload of a commit: its header lines and message.
pub fn parse_commit(data: &[u8]) -> (r: Result<Vec<u8>, VcsError>)
    ensures
        match r {
            Ok(p) => object_payload(ObjectType::Commit, data@) == Some(p@),
            Err(e) => object_payload(ObjectType::Commit, data@) is None && e
                == VcsError::CorruptObject,
        },
{
    split_object(ObjectType::Commit, data)
}

/// Stored bytes framed by `format_object` read back as the same payload.
pub proof fn lemma_object_round_trip(kind: ObjectType, payload: Seq<u8>)
    ensures
        object_payload(kind, encode_object(kind, payload)) == Some(payload),
{
    let d = decimal(payload.len());
    lemma_decimal_digits(payload.len());
    let data = encode_object(kind, payload);
    let k: int = kind.tag().len() + 1 + d.len() as int;
    assert(data[k] == 0u8);
    assert forall|j: int| 0 <= j < k implies data[j] != 0u8 by {
        if j > kind.tag().len() {
            assert(data[j] == d[j - kind.tag().len() - 1]);
        }
    }
    assert(is_first(data, 0u8, k));
    lemma_first_index(data, 0u8, k);
    assert(data.subrange(0, k).subrange(0, kind.tag().len() as int + 1) =~= kind.tag() + seq![32u8]);
    assert(data.subrange(k + 1, data.len() as int) =~= payload);
}

/// The mode of a tree entry.
#[derive(Debug, Clone, Copy, PartialEq, Eq, Structural)]
pub enum EntryMode {
    /// A regular file, stored as a blob.
    File,
    /// A directory, stored as a tree.
    Directory,
}

/// The mode's tag in a tree entry: `100644` or `40000`.
pub open spec fn mode_tag(m: EntryMode) -> Seq<u8> {
    match m {
        EntryMode::File => seq![49u8, 48, 48, 54, 52, 52],
        EntryMode::Directory => seq![52u8, 48, 48, 48, 48],
    }
}

/// The mode that a tag stands for.
pub open spec fn mode_of(t: Seq<u8>) -> Option<EntryMode> {
    if t == mode_tag(EntryMode::File) {
        Some(EntryMode::File)
    } else if t == mode_tag(EntryMode::Directory) {
        Some(EntryMode::Directory)
    } else {
        None
    }
}

fn mode_tag_bytes(m: EntryMode) -> (r: Vec<u8>)
    ensures
        r@ == mode_tag(m),
{
    match m {
        EntryMode::File => vec![49u8, 48, 48, 54, 52, 52],
        EntryMode::Directory => vec![52u8, 48, 48, 48, 48],
    }
}

fn read_mode(t: &[u8]) -> (r: Option<EntryMode>)
    ensures
        r == mode_of(t@),
{
    let f = mode_tag_bytes(EntryMode::File);
    let d = mode_tag_bytes(EntryMode::Directory);
    if crate::bytes::same_bytes(t, f.as_slice()) {
        Some(EntryMode::File)
    } else if crate::bytes::same_bytes(t, d.as_slice()) {
        Some(EntryMode::Directory)
    } else {
        None
    }
}

/// One entry of a tree: a mode, a name and the raw 20-byte hash of the child.
#[derive(Debug, Clone)]
pub struct TreeEntry {
    pub mode: EntryMode,
    pub name: Vec<u8>,
    pub hash: Vec<u8>,
}

/// What a tree entry holds.
pub struct EntryView {
    pub mode: EntryMode,
    pub name: Seq<u8>,
    pub hash: Seq<u8>,
}

impl View for TreeEntry {
    type V = EntryView;

    open spec fn view(&self) -> EntryView {
        EntryView { mode: self.mode, name: self.name@, hash: self.hash@ }
    }
}

/// The views of a sequence of entries.
pub open spec fn entry_views(es: Seq<TreeEntry>) -> Seq<EntryView> {
    es.map_values(|e: TreeEntry| e@)
}

/// An entry that can be written and read back: its name holds no NUL and
/// its hash is 20 bytes.
pub open spec fn entry_ok(e: EntryView) -> bool {
    !has_byte(e.name, 0) && e.hash.len() == 20
}

/// An entry's bytes in a tree payload: `"<mode> <name>\0"` and the raw hash.
pub open spec fn entry_bytes(e: EntryView) -> Seq<u8> {
    mode_tag(e.mode) + seq![32u8] + e.name + seq![0u8] + e.hash
}

/// The payload of a tree: its entries' bytes, in order.
pub open spec fn tree_payload(es: Seq<EntryView>) -> Seq<u8>
    decreases es.len(),
{
    if es.len() == 0 {
        seq![]
    } else {
        entry_bytes(es[0]) + tree_payload(es.drop_first())
    }
}

/// The entries that a tree payload encodes, or `None` where it is malformed.
pub open spec fn decode_entries(p: Seq<u8>) -> Option<Seq<EntryView>>
    decreases p.len(),
{
    if p.len() == 0 {
        Some(seq![])
    } else if !has_byte(p, 0) {
        None
    } else {
        let k = first_index(p, 0);
        let head = p.subrange(0, k);
        if !(0 <= k && k + 21 <= p.len()) || !has_byte(head, 32) {
            None
        } else {
            let sp = first_index(head, 32);
            match mode_of(head.subrange(0, sp)) {
                None => None,
                Some(m) => {
                    let e = EntryView {
                        mode: m,
                        name: head.subrange(sp + 1, k),
                        hash: p.subrange(k + 1, k + 21),
                    };
                    match decode_entries(p.subrange(k + 21, p.len() as int)) {
                        None => None,
                        Some(rest) => Some(seq![e] + rest),
                    }
                }
            }
        }
    }
}

/// The entries of a stored tree object, or `None` where it is malformed.
pub open spec fn decode_tree(data: Seq<u8>) -> Option<Seq<EntryView>> {
    match object_payload(ObjectType::Tree, data) {
        Some(p) => decode_entries(p),
        None => None,
    }
}

proof fn lemma_tree_payload_push(es: Seq<EntryView>, e: EntryView)
    ensures
        tree_payload(es.push(e)) == tree_payload(es) + entry_bytes(e),
    decreases es.len(),
{
    if es.len() == 0 {
        assert(es.push(e).drop_first() =~= Seq::<EntryView>::empty());
        assert(tree_payload(es.push(e).drop_first()) == Seq::<u8>::empty());
        assert(tree_payload(es) == Seq::<u8>::empty());
        assert(tree_payload(es.push(e)) =~= tree_payload(es) + entry_bytes(e));
    } else {
        assert(es.push(e).drop_first() =~= es.drop_first().push(e));
        lemma_tree_payload_push(es.drop_first(), e);
        assert(tree_payload(es.push(e)) =~= tree_payload(es) + entry_bytes(e));
    }
}

/// Encodes a tree: the header and each entry, in the order given.
pub fn format_tree(entries: &[TreeEntry]) -> (r: Vec<u8>)
    ensures
        r@ == encode_object(ObjectType::Tree, tree_payload(entry_views(entries@))),
{
    let mut data: Vec<u8> = Vec::new();
    let mut i: usize = 0;
    while i < entries.len()
        invariant
            i <= entries@.len(),
            data@ == tree_payload(entry_views(entries@.subrange(0, i as int))),
        decreases entries@.len() - i,
    {
        let e = &entries[i];
        let m = mode_tag_bytes(e.mode);
        append_bytes(&mut data, m.as_slice());
        data.push(32u8);
        append_bytes(&mut data, e.name.as_slice());
        data.push(0u8);
        append_bytes(&mut data, e.hash.as_slice());
        proof {
            let pre = entry_views(entries@.subrange(0, i as int));
            assert(entry_views(entries@.subrange(0, i + 1)) =~= pre.push(e@));
            lemma_tree_payload_push(pre, e@);
            assert(data@ =~= tree_payload(pre) + entry_bytes(e@));
        }
        i = i + 1;
    }
    assert(entries@.subrange(0, entries@.len() as int) =~= entries@);
    format_object(ObjectType::Tree, data.as_slice())
}

/// Decodes a stored tree object into its entries.
pub fn parse_tree(data: &[u8]) -> (r: Result<Vec<TreeEntry>, VcsError>)
    ensures
        match r {
            Ok(es) => decode_tree(data@) == Some(entry_views(es@)),
            Err(e) => decode_tree(data@) is None && e == VcsError::CorruptObject,
        },
{
    let payload = split_object(ObjectType::Tree, data)?;
    let p = payload.as_slice();
    let mut entries: Vec<TreeEntry> = Vec::new();
    let mut pos: usize = 0;
    assert(p@.subrange(0, p@.len() as int) =~= p@);
    proof {
        match decode_entries(p@) {
            Some(t) => {
                assert(entry_views(entries@) + t =~= t);
            },
            None => {},
        }
    }
    while pos < p.len()
        invariant
            pos <= p@.len(),
            object_payload(ObjectType::Tree, data@) == Some(p@),
            decode_entries(p@) == match decode_entries(p@.subrange(pos as int, p@.len() as int)) {
                Some(rest) => Some(entry_views(entries@) + rest),
                None => None::<Seq<EntryView>>,
            },
        decreases p@.len() - pos,
    {
        let rest = &p[pos..p.len()];
        let ghost rs = rest@;
        assert(rs == p@.subrange(pos as int, p@.len() as int));
        assert(rs.len() > 0);
        let k = match find_byte(rest, 0u8) {
            None => {
                assert(decode_entries(rs) is None);
                return Err(VcsError::CorruptObject);
            },
            Some(k) => k,
        };
        if rest.len() - k < 21 {
            assert(first_index(rs, 0u8) == k);
            assert(decode_entries(rs) is None);
            return Err(VcsError::CorruptObject);
        }
        let head = &rest[0..k];
        assert(head@ == rs.subrange(0, k as int));
        let sp = match find_byte(head, 32u8) {
            None => {
                return Err(VcsError::CorruptObject);
            },
            Some(sp) => sp,
        };
        let mode = match read_mode(&head[0..sp]) {
            None => {
                return Err(VcsError::CorruptObject);
            },
            Some(m) => m,
        };
        let e = TreeEntry {
            mode,
            name: copy_range(head, sp + 1, k),
            hash: copy_range(rest, k + 1, k + 21),
        };
        proof {
            let tail = rs.subrange(k + 21, rs.len() as int);
            assert(tail =~= p@.subrange(pos + k + 21, p@.len() as int));
            assert(entry_views(entries@.push(e)) =~= entry_views(entries@).push(e@));
            match decode_entries(tail) {
                Some(t) => {
                    assert(decode_entries(rs) == Some(seq![e@] + t));
                    assert(entry_views(entries@) + (seq![e@] + t) =~= entry_views(entries@).push(
                        e@,
                    ) + t);
                },
                None => {},
            }
        }
        entries.push(e);
        pos = pos + k + 21;
    }
    assert(p@.subrange(p@.len() as int, p@.len() as int) =~= Seq::<u8>::empty());
    assert(entry_views(entries@) + Seq::<EntryView>::empty() =~= entry_views(entries@));
    Ok(entries)
}

/// A tree payload written by `format_tree` reads back as the same entries,
/// where no name holds a NUL and every hash is 20 bytes.
pub proof fn lemma_entries_round_trip(es: Seq<EntryView>)
    requires
        forall|i: int| 0 <= i < es.len() ==> entry_ok(#[trigger] es[i]),
    ensures
        decode_entries(tree_payload(es)) == Some(es),
    decreases es.len(),
{
    if es.len() == 0 {
        assert(tree_payload(es) == Seq::<u8>::empty());
    } else {
        let e = es[0];
        assert(entry_ok(es[0]));
        let rest = es.drop_first();
        assert forall|i: int| 0 <= i < rest.len() implies entry_ok(#[trigger] rest[i]) by {
            assert(rest[i] == es[i + 1]);
        }
        lemma_entries_round_trip(rest);
        let p = tree_payload(es);
        let mt = mode_tag(e.mode);
        let ml = mt.len() as int;
        let k: int = ml + 1 + e.name.len();
        assert(p == entry_bytes(e) + tree_payload(rest));
        assert(p[k] == 0u8);
        assert forall|j: int| 0 <= j < k implies p[j] != 0u8 by {
            if j > ml {
                assert(p[j] == e.name[j - ml - 1]);
            }
        }
        assert(is_first(p, 0u8, k));
        lemma_first_index(p, 0u8, k);
        let head = p.subrange(0, k);
        assert(head[ml] == 32u8);
        assert forall|j: int| 0 <= j < ml implies head[j] != 32u8 by {}
        assert(is_first(head, 32u8, ml));
        lemma_first_index(head, 32u8, ml);
        assert(head.subrange(0, ml) =~= mt);
        assert(head.subrange(ml + 1, k) =~= e.name);
        assert(p.subrange(k + 1, k + 21) =~= e.hash);
        assert(p.subrange(k + 21, p.len() as int) =~= tree_payload(rest));
        assert(seq![e] + rest =~= es);
    }
}

/// A tree written by `format_tree` reads back as the same entries.
pub proof fn lemma_tree_round_trip(es: Seq<EntryView>)
    requires
        forall|i: int| 0 <= i < es.len() ==> entry_ok(#[trigger] es[i]),
    ensures
        decode_tree(encode_object(ObjectType::Tree, tree_payload(es))) == Some(es),
{
    lemma_object_round_trip(ObjectType::Tree, tree_payload(es));
    lemma_entries_round_trip(es);
}

} // verus!

use vstd::prelude::*;
use crate::bytes::to_bytes;
use crate::object::{entry_views, EntryView, TreeEntry};

verus! {

/// `a` comes before `b` in byte-wise lexicographic order.
pub open spec fn name_lt(a: Seq<u8>, b: Seq<u8>) -> bool
    decreases a.len(),
{
    if a.len() == 0 {
        b.len() > 0
    } else if b.len() == 0 {
        false
    } else if a[0] != b[0] {
        a[0] < b[0]
    } else {
        name_lt(a.drop_first(), b.drop_first())
    }
}

/// Whether `a` comes before `b` in byte-wise lexicographic order.
pub fn name_less(a: &[u8], b: &[u8]) -> (r: bool)
    ensures
        r == name_lt(a@, b@),
{
    let mut i: usize = 0;
    assert(a@.subrange(0, a@.len() as int) =~= a@);
    assert(b@.subrange(0, b@.len() as int) =~= b@);
    while i < a.len() && i < b.len()
        invariant
            i <= a@.len(),
            i <= b@.len(),
            name_lt(a@, b@) == name_lt(a@.subrange(i as int, a@.len() as int), b@.subrange(i as int, b@.len() as int)),
        decreases a@.len() - i,
    {
        let ghost ra = a@.subrange(i as int, a@.len() as int);
        let ghost rb = b@.subrange(i as int, b@.len() as int);
        if a[i] != b[i] {
            return a[i] < b[i];
        }
        assert(ra.drop_first() =~= a@.subrange(i + 1, a@.len() as int));
        assert(rb.drop_first() =~= b@.subrange(i + 1, b@.len() as int));
        i = i + 1;
    }
    i < b.len()
}

/// `e` put into `s` before the first entry whose name does not come before
/// its own.
pub open spec fn insert_sorted(e: EntryView, s: Seq<EntryView>) -> Seq<EntryView>
    decreases s.len(),
{
    if s.len() == 0 {
        seq![e]
    } else if name_lt(s[0].name, e.name) {
        seq![s[0]] + insert_sorted(e, s.drop_first())
    } else {
        seq![e] + s
    }
}

/// The entries ordered by name, by insertion; entries of equal names keep
/// their order.
pub open spec fn sort_entries(s: Seq<EntryView>) -> Seq<EntryView>
    decreases s.len(),
{
    if s.len() == 0 {
        seq![]
    } else {
        insert_sorted(s.last(), sort_entries(s.drop_last()))
    }
}

proof fn lemma_insert_at(e: EntryView, s: Seq<EntryView>, k: int)
    requires
        0 <= k <= s.len(),
        forall|j: int| 0 <= j < k ==> name_lt(#[trigger] s[j].name, e.name),
        k < s.len() ==> !name_lt(s[k].name, e.name),
    ensures
        insert_sorted(e, s) == s.subrange(0, k) + seq![e] + s.subrange(k, s.len() as int),
    decreases k,
{
    if k == 0 {
        assert(s.subrange(0, 0) + seq![e] + s.subrange(0, s.len() as int) =~= seq![e] + s);
    } else {
        let r = s.drop_first();
        assert forall|j: int| 0 <= j < k - 1 implies name_lt(#[trigger] r[j].name, e.name) by {
            assert(r[j] == s[j + 1]);
        }
        lemma_insert_at(e, r, k - 1);
        assert(s.subrange(0, k) + seq![e] + s.subrange(k, s.len() as int) =~= seq![s[0]] + (
        r.subrange(0, k - 1) + seq![e] + r.subrange(k - 1, r.len() as int)));
    }
}

fn copy_entry(e: &TreeEntry) -> (r: TreeEntry)
    ensures
        r@ == e@,
{
    TreeEntry { mode: e.mode, name: to_bytes(e.name.as_slice()), hash: to_bytes(e.hash.as_slice()) }
}

/// Orders tree entries by name.
pub fn sort_tree_entries(entries: &[TreeEntry]) -> (r: Vec<TreeEntry>)
    ensures
        entry_views(r@) == sort_entries(entry_views(entries@)),
{
    let mut out: Vec<TreeEntry> = Vec::new();
    let mut i: usize = 0;
    let n = entries.len();
    let ghost all = entry_views(entries@);
    while i < n
        invariant
            n == all.len(),
            n == entries@.len(),
            all == entry_views(entries@),
            i <= n,
            entry_views(out@) == sort_entries(all.subrange(0, i as int)),
        decreases n - i,
    {
        let e = copy_entry(&entries[i]);
        let ghost ev = e@;
        assert(ev == all[i as int]);
        let mut k: usize = 0;
        while k < out.len()
            invariant
                k <= out@.len(),
                forall|j: int| 0 <= j < k ==> name_lt(#[trigger] entry_views(out@)[j].name, ev.name),
                ev == e@,
            ensures
                k <= out@.len(),
                forall|j: int| 0 <= j < k ==> name_lt(#[trigger] entry_views(out@)[j].name, ev.name),
                k < out@.len() ==> !name_lt(entry_views(out@)[k as int].name, ev.name),
            decreases out@.len() - k,
        {
            if !name_less(out[k].name.as_slice(), e.name.as_slice()) {
                break;
            }
            k = k + 1;
        }
        let ghost before = entry_views(out@);
        proof {
            lemma_insert_at(ev, before, k as int);
        }
        out.insert(k, e);
        proof {
            assert(entry_views(out@) =~= before.subrange(0, k as int) + seq![ev] + before.subrange(k as int, before.len() as int));
            let pre = all.subrange(0, i + 1);
            assert(pre.drop_last() =~= all.subrange(0, i as int));
            assert(pre.last() == ev);
        }
        i = i + 1;
    }
    assert(all.subrange(0, n as int) =~= all);
    out
}

proof fn lemma_lt_irrefl(a: Seq<u8>)
    ensures
        !name_lt(a, a),
    decreases a.len(),
{
    if a.len() > 0 {
        lemma_lt_irrefl(a.drop_first());
    }
}

proof fn lemma_lt_asym(a: Seq<u8>, b: Seq<u8>)
    ensures
        name_lt(a, b) ==> !name_lt(b, a),
    decreases a.len(),
{
    if a.len() > 0 && b.len() > 0 && a[0] == b[0] {
        lemma_lt_asym(a.drop_first(), b.drop_first());
    }
}

proof fn lemma_lt_total(a: Seq<u8>, b: Seq<u8>)
    ensures
        a != b ==> name_lt(a, b) || name_lt(b, a),
    decreases a.len(),
{
    if a.len() > 0 && b.len() > 0 && a[0] == b[0] {
        lemma_lt_total(a.drop_first(), b.drop_first());
        if a.drop_first() == b.drop_first() {
            assert(a =~= seq![a[0]] + a.drop_first());
            assert(b =~= seq![b[0]] + b.drop_first());
        }
    } else if a.len() == 0 && b.len() == 0 {
        assert(a =~= b);
    }
}

proof fn lemma_lt_trans(a: Seq<u8>, b: Seq<u8>, c: Seq<u8>)
    requires
        name_lt(a, b),
        name_lt(b, c),
    ensures
        name_lt(a, c),
    decreases a.len(),
{
    if a.len() > 0 && b.len() > 0 && c.len() > 0 && a[0] == b[0] && b[0] == c[0] {
        lemma_lt_trans(a.drop_first(), b.drop_first(), c.drop_first());
    }
}

/// The entries are in strictly increasing order of name.
pub open spec fn strictly_sorted(s: Seq<EntryView>) -> bool {
    forall|i: int, j: int| 0 <= i < j < s.len() ==> name_lt(#[trigger] s[i].name, #[trigger] s[j].name)
}

/// No two entries share a name.
pub open spec fn distinct_names(s: Seq<EntryView>) -> bool {
    forall|i: int, j: int| 0 <= i < s.len() && 0 <= j < s.len() && i != j ==> #[trigger] s[i].name != #[trigger] s[j].name
}

proof fn lemma_insert_members(e: EntryView, s: Seq<EntryView>)
    ensures
        forall|x: EntryView| #[trigger] insert_sorted(e, s).contains(x) <==> (x == e || s.contains(x)),
        insert_sorted(e, s).len() == s.len() + 1,
    decreases s.len(),
{
    if s.len() > 0 && name_lt(s[0].name, e.name) {
        lemma_insert_members(e, s.drop_first());
        let r = insert_sorted(e, s.drop_first());
        assert forall|x: EntryView| #[trigger] insert_sorted(e, s).contains(x) <==> (x == e || s.contains(x)) by {
            let full = seq![s[0]] + r;
            assert(insert_sorted(e, s) == full);
            if full.contains(x) {
                let k = choose|k: int| 0 <= k < full.len() && full[k] == x;
                if k > 0 {
                    assert(r[k - 1] == x);
                    assert(r.contains(x));
                    if x != e {
                        let m = choose|m: int| 0 <= m < s.drop_first().len() && s.drop_first()[m] == x;
                        assert(s[m + 1] == x);
                    }
                } else {
                    assert(s[0] == x);
                }
            }
            if x == e {
                assert(r.contains(e));
                let k = choose|k: int| 0 <= k < r.len() && r[k] == e;
                assert(full[k + 1] == e);
            } else if s.contains(x) {
                let k = choose|k: int| 0 <= k < s.len() && s[k] == x;
                if k == 0 {
                    assert(full[0] == x);
                } else {
                    assert(s.drop_first()[k - 1] == x);
                    assert(r.contains(x));
                    let m = choose|m: int| 0 <= m < r.len() && r[m] == x;
                    assert(full[m + 1] == x);
                }
            }
        }
    } else if s.len() > 0 {
        let full = seq![e] + s;
        assert forall|x: EntryView| #[trigger] insert_sorted(e, s).contains(x) <==> (x == e || s.contains(x)) by {
            if full.contains(x) {
                let k = choose|k: int| 0 <= k < full.len() && full[k] == x;
                if k > 0 {
                    assert(s[k - 1] == x);
                }
            }
            if x == e {
                assert(full[0] == e);
            } else if s.contains(x) {
                let k = choose|k: int| 0 <= k < s.len() && s[k] == x;
                assert(full[k + 1] == x);
            }
        }
    } else {
        assert forall|x: EntryView| #[trigger] insert_sorted(e, s).contains(x) <==> (x == e || s.contains(x)) by {
            if insert_sorted(e, s).contains(x) {
                let k = choose|k: int| 0 <= k < 1 && seq![e][k] == x;
            }
            if x == e {
                assert(seq![e][0] == e);
            }
        }
    }
}

proof fn lemma_insert_sorted(e: EntryView, s: Seq<EntryView>)
    requires
        strictly_sorted(s),
        forall|i: int| 0 <= i < s.len() ==> #[trigger] s[i].name != e.name,
    ensures
        strictly_sorted(insert_sorted(e, s)),
    decreases s.len(),
{
    lemma_insert_members(e, s);
    if s.len() > 0 && name_lt(s[0].name, e.name) {
        let rest = s.drop_first();
        assert forall|i: int, j: int| 0 <= i < j < rest.len() implies name_lt(#[trigger] rest[i].name, #[trigger] rest[j].name) by {
            assert(rest[i] == s[i + 1] && rest[j] == s[j + 1]);
        }
        assert forall|i: int| 0 <= i < rest.len() implies #[trigger] rest[i].name != e.name by {
            assert(rest[i] == s[i + 1]);
        }
        lemma_insert_sorted(e, rest);
        lemma_insert_members(e, rest);
        let r = insert_sorted(e, rest);
        let full = seq![s[0]] + r;
        assert forall|i: int, j: int| 0 <= i < j < full.len() implies name_lt(#[trigger] full[i].name, #[trigger] full[j].name) by {
            if i == 0 {
                let x = full[j];
                assert(r[j - 1] == x);
                assert(r.contains(x));
                if x != e {
                    assert(rest.contains(x));
                    let m = choose|m: int| 0 <= m < rest.len() && rest[m] == x;
                    assert(s[m + 1] == x);
                }
            } else {
                assert(full[i] == r[i - 1] && full[j] == r[j - 1]);
            }
        }
    } else if s.len() > 0 {
        lemma_lt_total(s[0].name, e.name);
        assert(name_lt(e.name, s[0].name));
        let full = seq![e] + s;
        assert forall|i: int, j: int| 0 <= i < j < full.len() implies name_lt(#[trigger] full[i].name, #[trigger] full[j].name) by {
            if i == 0 {
                if j > 1 {
                    assert(name_lt(s[0].name, s[j - 1].name));
                    lemma_lt_trans(e.name, s[0].name, s[j - 1].name);
                }
            } else {
                assert(full[i] == s[i - 1] && full[j] == s[j - 1]);
            }
        }
    }
}

pub proof fn lemma_sort_members(s: Seq<EntryView>)
    ensures
        forall|x: EntryView| #[trigger] sort_entries(s).contains(x) <==> s.contains(x),
        sort_entries(s).len() == s.len(),
    decreases s.len(),
{
    if s.len() > 0 {
        let d = s.drop_last();
        lemma_sort_members(d);
        lemma_insert_members(s.last(), sort_entries(d));
        assert forall|x: EntryView| #[trigger] sort_entries(s).contains(x) <==> s.contains(x) by {
            if d.contains(x) {
                let k = choose|k: int| 0 <= k < d.len() && d[k] == x;
                assert(s[k] == x);
            }
            if s.contains(x) && x != s.last() {
                let k = choose|k: int| 0 <= k < s.len() && s[k] == x;
                assert(d[k] == x);
            }
            if x == s.last() {
                assert(s[s.len() - 1] == x);
            }
        }
    }
}

proof fn lemma_sort_sorted(s: Seq<EntryView>)
    requires
        distinct_names(s),
    ensures
        strictly_sorted(sort_entries(s)),
    decreases s.len(),
{
    if s.len() > 0 {
        let d = s.drop_last();
        assert forall|i: int, j: int| 0 <= i < d.len() && 0 <= j < d.len() && i != j implies #[trigger] d[i].name != #[trigger] d[j].name by {
            assert(d[i] == s[i] && d[j] == s[j]);
        }
        lemma_sort_sorted(d);
        lemma_sort_members(d);
        let sd = sort_entries(d);
        assert forall|i: int| 0 <= i < sd.len() implies #[trigger] sd[i].name != s.last().name by {
            assert(sd.contains(sd[i]));
            assert(d.contains(sd[i]));
            let k = choose|k: int| 0 <= k < d.len() && d[k] == sd[i];
            assert(s[k] == sd[i]);
        }
        lemma_insert_sorted(s.last(), sd);
    }
}

proof fn lemma_sorted_unique(a: Seq<EntryView>, b: Seq<EntryView>)
    requires
        strictly_sorted(a),
        strictly_sorted(b),
        forall|x: EntryView| a.contains(x) <==> b.contains(x),
    ensures
        a == b,
    decreases a.len() + b.len(),
{
    if a.len() == 0 || b.len() == 0 {
        if a.len() > 0 {
            assert(a.contains(a[0]));
        }
        if b.len() > 0 {
            assert(b.contains(b[0]));
        }
        assert(a =~= b);
    } else {
        assert(a.contains(a[0]));
        assert(b.contains(b[0]));
        let i = choose|i: int| 0 <= i < a.len() && a[i] == b[0];
        let j = choose|j: int| 0 <= j < b.len() && b[j] == a[0];
        if i > 0 && j > 0 {
            assert(name_lt(a[0].name, a[i].name));
            assert(name_lt(b[0].name, b[j].name));
            lemma_lt_asym(a[0].name, b[0].name);
        }
        if i == 0 {
            assert(a[0] == b[0]);
        } else {
            assert(j == 0);
            assert(a[0] == b[0]);
        }
        let ra = a.drop_first();
        let rb = b.drop_first();
        assert forall|x: EntryView| ra.contains(x) <==> rb.contains(x) by {
            if ra.contains(x) {
                let k = choose|k: int| 0 <= k < ra.len() && ra[k] == x;
                assert(a[k + 1] == x);
                assert(a.contains(x));
                assert(b.contains(x));
                let m = choose|m: int| 0 <= m < b.len() && b[m] == x;
                if m == 0 {
                    assert(name_lt(a[0].name, a[k + 1].name));
                    lemma_lt_irrefl(x.name);
                }
                assert(rb[m - 1] == x);
            }
            if rb.contains(x) {
                let k = choose|k: int| 0 <= k < rb.len() && rb[k] == x;
                assert(b[k + 1] == x);
                assert(b.contains(x));
                assert(a.contains(x));
                let m = choose|m: int| 0 <= m < a.len() && a[m] == x;
                if m == 0 {
                    assert(name_lt(b[0].name, b[k + 1].name));
                    lemma_lt_irrefl(x.name);
                }
                assert(ra[m - 1] == x);
            }
        }
        assert forall|p: int, q: int| 0 <= p < q < ra.len() implies name_lt(#[trigger] ra[p].name, #[trigger] ra[q].name) by {
            assert(ra[p] == a[p + 1] && ra[q] == a[q + 1]);
        }
        assert forall|p: int, q: int| 0 <= p < q < rb.len() implies name_lt(#[trigger] rb[p].name, #[trigger] rb[q].name) by {
            assert(rb[p] == b[p + 1] && rb[q] == b[q + 1]);
        }
        lemma_sorted_unique(ra, rb);
        assert(a =~= seq![a[0]] + ra);
        assert(b =~= seq![b[0]] + rb);
    }
}

/// Two listings of the same entries, with no name twice, sort to the same
/// sequence, whatever order they were listed in.
pub proof fn lemma_sort_order_independent(a: Seq<EntryView>, b: Seq<EntryView>)
    requires
        distinct_names(a),
        distinct_names(b),
        forall|x: EntryView| a.contains(x) <==> b.contains(x),
    ensures
        sort_entries(a) == sort_entries(b),
{
    lemma_sort_sorted(a);
    lemma_sort_sorted(b);
    lemma_sort_members(a);
    lemma_sort_members(b);
    lemma_sorted_unique(sort_entries(a), sort_entries(b));
}

} // verus!

use vstd::prelude::*;
use crate::bytes::{append_bytes, copy_range, find_byte, has_prefix, starts_with};
use crate::commit::opt_view;
use crate::error::VcsError;
use crate::text::{is_space, lines_of, split_lines, trim, trim_of, views};
use crate::time::{commit_date, format_commit_date};

verus! {

/// The length of the word that starts `s`: bytes up to the first
/// whitespace.
pub open spec fn word_len(s: Seq<u8>) -> nat
    decreases s.len(),
{
    if s.len() == 0 || is_space(s[0]) {
        0
    } else {
        1 + word_len(s.drop_first())
    }
}

/// The words of `s`: its runs of bytes that are not whitespace.
pub open spec fn words(s: Seq<u8>) -> Seq<Seq<u8>>
    decreases s.len(),
{
    if s.len() == 0 {
        seq![]
    } else if is_space(s[0]) {
        words(s.drop_first())
    } else {
        let k = word_len(s);
        if 0 < k <= s.len() {
            seq![s.subrange(0, k as int)] + words(s.subrange(k as int, s.len() as int))
        } else {
            seq![]
        }
    }
}

/// The words joined by single spaces.
pub open spec fn join_spaced(ws: Seq<Seq<u8>>) -> Seq<u8>
    decreases ws.len(),
{
    if ws.len() == 0 {
        seq![]
    } else if ws.len() == 1 {
        ws[0]
    } else {
        join_spaced(ws.drop_last()) + seq![32u8] + ws.last()
    }
}

/// The value of a run of decimal digits.
pub open spec fn digits_value(s: Seq<u8>) -> int
    decreases s.len(),
{
    if s.len() == 0 {
        0
    } else {
        digits_value(s.drop_last()) * 10 + (s.last() - 48)
    }
}

pub open spec fn all_digits(s: Seq<u8>) -> bool {
    forall|i: int| 0 <= i < s.len() ==> 48 <= #[trigger] s[i] <= 57
}

/// A signed 64-bit integer as `i64` parsing reads it: an optional sign and
/// at least one digit, in range.
pub open spec fn parse_int(s: Seq<u8>) -> Option<int> {
    let neg = s.len() > 0 && s[0] == 45u8;
    let signed = s.len() > 0 && (s[0] == 45u8 || s[0] == 43u8);
    let d = if signed { s.drop_first() } else { s };
    if d.len() == 0 || !all_digits(d) {
        None
    } else {
        let v = if neg { -digits_value(d) } else { digits_value(d) };
        if i64::MIN <= v <= i64::MAX {
            Some(v)
        } else {
            None
        }
    }
}

/// `s` without its trailing carriage returns.
pub open spec fn trim_cr(s: Seq<u8>) -> Seq<u8>
    decreases s.len(),
{
    if s.len() > 0 && s.last() == 13u8 {
        trim_cr(s.drop_last())
    } else {
        s
    }
}

/// What the formatter has gathered so far.
pub struct LogState {
    pub in_message: bool,
    pub author: Option<Seq<u8>>,
    pub date: Option<Seq<u8>>,
    pub out: Seq<u8>,
}

pub open spec fn kw_tree() -> Seq<u8> { seq![116u8, 114, 101, 101, 32] }
pub open spec fn kw_parent() -> Seq<u8> { seq![112u8, 97, 114, 101, 110, 116, 32] }
pub open spec fn kw_committer() -> Seq<u8> { seq![99u8, 111, 109, 109, 105, 116, 116, 101, 114, 32] }
pub open spec fn kw_author() -> Seq<u8> { seq![97u8, 117, 116, 104, 111, 114, 32] }
/// `Author: `
pub open spec fn author_label() -> Seq<u8> { seq![65u8, 117, 116, 104, 111, 114, 58, 32] }
/// `Date:   `
pub open spec fn date_label() -> Seq<u8> { seq![68u8, 97, 116, 101, 58, 32, 32, 32] }

/// The author and date that an `author` line's text gives: with at least
/// four words, all but the last two as the author and the last two as the
/// time and timezone (the date kept where the time does not read as a
/// number); otherwise the whole text as the author.
pub open spec fn author_fields(st: LogState, rest: Seq<u8>) -> LogState {
    let ps = words(rest);
    if ps.len() >= 4 {
        let n = ps.len() as int;
        LogState {
            author: Some(join_spaced(ps.subrange(0, n - 2))),
            date: match parse_int(ps[n - 2]) {
                Some(e) => commit_date(e, ps[n - 1]),
                None => st.date,
            },
            ..st
        }
    } else {
        LogState { author: Some(rest), ..st }
    }
}

/// One line of a commit's text, read by the formatter.
pub open spec fn log_step(st: LogState, raw: Seq<u8>) -> LogState {
    let line = trim_cr(raw);
    if !st.in_message {
        if line.len() == 0 {
            let a = match st.author { Some(a) => author_label() + a + seq![10u8], None => seq![] };
            let d = match st.date { Some(d) => date_label() + d + seq![10u8], None => seq![] };
            LogState { in_message: true, out: st.out + a + d + seq![10u8], ..st }
        } else if starts_with(line, kw_tree()) || starts_with(line, kw_parent()) || starts_with(line, kw_committer()) {
            st
        } else if starts_with(line, kw_author()) {
            author_fields(st, line.subrange(7, line.len() as int))
        } else {
            st
        }
    } else if line.len() == 0 {
        LogState { out: st.out + seq![10u8], ..st }
    } else {
        LogState { out: st.out + seq![32u8, 32, 32, 32] + line + seq![10u8], ..st }
    }
}

pub open spec fn log_run(st: LogState, lines: Seq<Seq<u8>>) -> LogState
    decreases lines.len(),
{
    if lines.len() == 0 {
        st
    } else {
        log_run(log_step(st, lines[0]), lines.drop_first())
    }
}

/// `commit`
pub open spec fn kw_commit() -> Seq<u8> { seq![99u8, 111, 109, 109, 105, 116] }

/// A commit object shown as a log entry: `commit <hash>`, the author and
/// date from its `author` line, a blank line, and each message line
/// indented by four spaces; `None` where the object has no NUL or its
/// header does not start with `commit`.
pub open spec fn log_entry(data: Seq<u8>, hash: Seq<u8>) -> Option<Seq<u8>> {
    if !crate::bytes::has_byte(data, 0) {
        None
    } else {
        let k = crate::bytes::first_index(data, 0);
        if !(0 <= k < data.len()) || !starts_with(trim_of(data.subrange(0, k)), kw_commit()) {
            None
        } else {
            let init = LogState {
                in_message: false,
                author: None,
                date: None,
                out: kw_commit() + seq![32u8] + hash + seq![10u8],
            };
            Some(log_run(init, lines_of(data.subrange(k + 1, data.len() as int))).out)
        }
    }
}

fn strip_cr(s: &[u8]) -> (r: Vec<u8>)
    ensures
        r@ == trim_cr(s@),
{
    let mut hi: usize = s.len();
    assert(s@.subrange(0, hi as int) =~= s@);
    while hi > 0 && s[hi - 1] == 13u8
        invariant
            hi <= s@.len(),
            trim_cr(s@) == trim_cr(s@.subrange(0, hi as int)),
        decreases hi,
    {
        assert(s@.subrange(0, hi as int).drop_last() =~= s@.subrange(0, hi - 1));
        hi = hi - 1;
    }
    copy_range(s, 0, hi)
}

fn split_words(s: &[u8]) -> (r: Vec<Vec<u8>>)
    ensures
        views(r@) == words(s@),
{
    let mut out: Vec<Vec<u8>> = Vec::new();
    let mut pos: usize = 0;
    assert(s@.subrange(0, s@.len() as int) =~= s@);
    assert(views(out@) + words(s@) =~= words(s@));
    while pos < s.len()
        invariant
            pos <= s@.len(),
            words(s@) == views(out@) + words(s@.subrange(pos as int, s@.len() as int)),
        decreases s@.len() - pos,
    {
        let ghost rest = s@.subrange(pos as int, s@.len() as int);
        let c = s[pos];
        if c == 32 || c == 9 || c == 10 || c == 13 || c == 12 || c == 11 {
            assert(rest.drop_first() =~= s@.subrange(pos + 1, s@.len() as int));
            pos = pos + 1;
        } else {
            let mut end: usize = pos;
            while end < s.len() && !(s[end] == 32 || s[end] == 9 || s[end] == 10 || s[end] == 13 || s[end] == 12 || s[end] == 11)
                invariant
                    pos <= end <= s@.len(),
                    word_len(rest) == (end - pos) + word_len(s@.subrange(end as int, s@.len() as int)),
                decreases s@.len() - end,
            {
                assert(s@.subrange(end as int, s@.len() as int).drop_first() =~= s@.subrange(end + 1, s@.len() as int));
                end = end + 1;
            }
            proof {
                if end < s@.len() {
                    assert(is_space(s@.subrange(end as int, s@.len() as int)[0]));
                }
                assert(word_len(s@.subrange(end as int, s@.len() as int)) == 0);
                assert(rest.subrange(0, (end - pos) as int) =~= s@.subrange(pos as int, end as int));
                assert(rest.subrange((end - pos) as int, rest.len() as int) =~= s@.subrange(end as int, s@.len() as int));
            }
            let ghost before = views(out@);
            out.push(copy_range(s, pos, end));
            assert(views(out@) =~= before + seq![s@.subrange(pos as int, end as int)]);
            assert(views(out@) + words(s@.subrange(end as int, s@.len() as int)) =~= before + words(rest));
            pos = end;
        }
    }
    assert(views(out@) + Seq::<Seq<u8>>::empty() =~= views(out@));
    out
}

fn join_first(ws: &[Vec<u8>], n: usize) -> (r: Vec<u8>)
    requires
        n <= ws@.len(),
    ensures
        r@ == join_spaced(views(ws@).subrange(0, n as int)),
{
    let mut out: Vec<u8> = Vec::new();
    let mut i: usize = 0;
    assert(views(ws@).subrange(0, 0) =~= Seq::<Seq<u8>>::empty());
    while i < n
        invariant
            i <= n <= ws@.len(),
            out@ == join_spaced(views(ws@).subrange(0, i as int)),
        decreases n - i,
    {
        let ghost pre = views(ws@).subrange(0, i + 1);
        assert(pre.drop_last() =~= views(ws@).subrange(0, i as int));
        assert(pre.last() == ws@[i as int]@);
        if i > 0 {
            out.push(32u8);
        }
        append_bytes(&mut out, ws[i].as_slice());
        proof {
            if i == 0 {
                assert(pre.len() == 1);
                assert(out@ =~= pre[0]);
            }
        }
        i = i + 1;
    }
    out
}

proof fn lemma_digits_grow(s: Seq<u8>, k: int)
    requires
        all_digits(s),
        0 <= k <= s.len(),
    ensures
        digits_value(s.subrange(0, k)) <= digits_value(s),
        0 <= digits_value(s.subrange(0, k)),
    decreases s.len() - k,
{
    if k < s.len() {
        lemma_digits_grow(s, k + 1);
        let p = s.subrange(0, k + 1);
        assert(p.drop_last() =~= s.subrange(0, k));
        assert(48 <= p.last() <= 57);
    } else {
        assert(s.subrange(0, k) =~= s);
    }
    lemma_digits_nonneg(s.subrange(0, k));
}

proof fn lemma_digits_nonneg(s: Seq<u8>)
    requires
        all_digits(s),
    ensures
        0 <= digits_value(s),
    decreases s.len(),
{
    if s.len() > 0 {
        lemma_digits_nonneg(s.drop_last());
    }
}

fn parse_i64(s: &[u8]) -> (r: Option<i64>)
    ensures
        match r {
            Some(v) => parse_int(s@) == Some(v as int),
            None => parse_int(s@) is None,
        },
{
    let n = s.len();
    let neg = n > 0 && s[0] == 45u8;
    let start: usize = if n > 0 && (s[0] == 45u8 || s[0] == 43u8) { 1 } else { 0 };
    let ghost d = s@.subrange(start as int, n as int);
    assert(d =~= (if s@.len() > 0 && (s@[0] == 45u8 || s@[0] == 43u8) { s@.drop_first() } else { s@ }));
    if start >= n {
        return None;
    }
    let mut i: usize = start;
    let mut v: u64 = 0;
    while i < n
        invariant
            start <= i <= n == s@.len(),
            d == s@.subrange(start as int, n as int),
            d == (if s@.len() > 0 && (s@[0] == 45u8 || s@[0] == 43u8) { s@.drop_first() } else { s@ }),
            neg == (s@.len() > 0 && s@[0] == 45u8),
            all_digits(s@.subrange(start as int, i as int)),
            v as int == digits_value(s@.subrange(start as int, i as int)),
            v <= 9223372036854775808u64,
        decreases n - i,
    {
        let c = s[i];
        assert(s@.subrange(start as int, i + 1).drop_last() =~= s@.subrange(start as int, i as int));
        if c < 48 || c > 57 {
            assert(!all_digits(d)) by {
                assert(d[i - start] == c);
            }
            return None;
        }
        let next: u128 = (v as u128) * 10 + ((c - 48) as u128);
        if next > 9223372036854775808u128 {
            if all_digits_from(s, i + 1) {
                proof {
                    assert(s@.subrange(start as int, i + 1).drop_last() =~= s@.subrange(start as int, i as int));
                    assert(digits_value(s@.subrange(start as int, i + 1)) == next as int);
                    assert(all_digits(d)) by {
                        assert forall|j: int| 0 <= j < d.len() implies 48 <= #[trigger] d[j] <= 57 by {
                            if j + start <= i {
                                assert(d[j] == s@.subrange(start as int, i + 1)[j]);
                            } else {
                                assert(d[j] == s@[j + start]);
                            }
                        }
                    }
                    assert(d.subrange(0, (i + 1 - start) as int) =~= s@.subrange(start as int, i + 1));
                    lemma_digits_grow(d, (i + 1 - start) as int);
                }
            } else {
                proof {
                    let j = choose|j: int| (i + 1) <= j < s@.len() && !(48 <= #[trigger] s@[j] <= 57);
                    assert(d[j - start] == s@[j]);
                }
            }
            return None;
        }
        v = next as u64;
        i = i + 1;
    }
    assert(s@.subrange(start as int, n as int) =~= d);
    proof {
        lemma_digits_nonneg(d);
    }
    if neg {
        if v == 9223372036854775808u64 {
            Some(i64::MIN)
        } else {
            Some(-(v as i64))
        }
    } else {
        if v > 9223372036854775807u64 {
            None
        } else {
            Some(v as i64)
        }
    }
}

fn all_digits_from(s: &[u8], from: usize) -> (r: bool)
    requires
        from <= s@.len(),
    ensures
        r == forall|j: int| from <= j < s@.len() ==> 48 <= #[trigger] s@[j] <= 57,
{
    let mut i: usize = from;
    while i < s.len()
        invariant
            from <= i <= s@.len(),
            forall|j: int| from <= j < i ==> 48 <= #[trigger] s@[j] <= 57,
        decreases s@.len() - i,
    {
        if s[i] < 48 || s[i] > 57 {
            return false;
        }
        i = i + 1;
    }
    true
}

/// Shows a stored commit object as a log entry.
pub fn format_commit_history(commit_data: &[u8], hash: &[u8]) -> (r: Result<Vec<u8>, VcsError>)
    ensures
        match log_entry(commit_data@, hash@) {
            None => r == Err::<Vec<u8>, VcsError>(VcsError::CorruptObject),
            Some(o) => r matches Ok(v) && v@ == o,
        },
{
    let k = match find_byte(commit_data, 0u8) {
        None => {
            return Err(VcsError::CorruptObject);
        },
        Some(k) => k,
    };
    let n = commit_data.len();
    let head = &commit_data[0..k];
    assert(head@ == commit_data@.subrange(0, k as int));
    let meta = trim(head);
    let kw: Vec<u8> = vec![99u8, 111, 109, 109, 105, 116];
    assert(kw@ == kw_commit());
    if !has_prefix(meta.as_slice(), kw.as_slice()) {
        return Err(VcsError::CorruptObject);
    }
    let body = &commit_data[k + 1..n];
    assert(body@ == commit_data@.subrange(k + 1, n as int));
    let lines = split_lines(body);
    let ghost ls = lines_of(body@);
    let mut out: Vec<u8> = vec![99u8, 111, 109, 109, 105, 116, 32];
    append_bytes(&mut out, hash);
    out.push(10u8);
    let mut in_message = false;
    let mut author: Option<Vec<u8>> = None;
    let mut date: Option<Vec<u8>> = None;
    let ghost init = LogState { in_message: false, author: None, date: None, out: out@ };
    assert(out@ =~= kw_commit() + seq![32u8] + hash@ + seq![10u8]);
    let mut i: usize = 0;
    assert(ls.subrange(0, ls.len() as int) =~= ls);
    while i < lines.len()
        invariant
            ls == views(lines@),
            i <= lines@.len(),
            log_run(init, ls) == log_run(
                LogState { in_message, author: opt_view(author), date: opt_view(date), out: out@ },
                ls.subrange(i as int, ls.len() as int),
            ),
        decreases lines@.len() - i,
    {
        let ghost rest = ls.subrange(i as int, ls.len() as int);
        assert(rest.drop_first() =~= ls.subrange(i + 1, ls.len() as int));
        assert(rest[0] == lines@[i as int]@);
        let ghost st = LogState { in_message, author: opt_view(author), date: opt_view(date), out: out@ };
        let line = strip_cr(lines[i].as_slice());
        let l = line.as_slice();
        if !in_message {
            if l.len() == 0 {
                let ghost out0 = out@;
                match &author {
                    Some(a) => {
                        let lab: Vec<u8> = vec![65u8, 117, 116, 104, 111, 114, 58, 32];
                        append_bytes(&mut out, lab.as_slice());
                        append_bytes(&mut out, a.as_slice());
                        out.push(10u8);
                    },
                    None => {},
                }
                let ghost out1 = out@;
                match &date {
                    Some(d) => {
                        let lab: Vec<u8> = vec![68u8, 97, 116, 101, 58, 32, 32, 32];
                        append_bytes(&mut out, lab.as_slice());
                        append_bytes(&mut out, d.as_slice());
                        out.push(10u8);
                    },
                    None => {},
                }
                let ghost out2 = out@;
                out.push(10u8);
                in_message = true;
                proof {
                    let a = match st.author { Some(a) => author_label() + a + seq![10u8], None => seq![] };
                    let d = match st.date { Some(d) => date_label() + d + seq![10u8], None => seq![] };
                    assert(out1 =~= out0 + a);
                    assert(out2 =~= out1 + d);
                    assert(out@ =~= st.out + a + d + seq![10u8]);
                    assert(trim_cr(lines@[i as int]@).len() == 0);
                    assert(log_step(st, lines@[i as int]@) == LogState { in_message, author: opt_view(author), date: opt_view(date), out: out@ }) by {
                        assert(log_step(st, lines@[i as int]@).out == st.out + a + d + seq![10u8]);
                    }
                }
            } else {
                let t: Vec<u8> = vec![116u8, 114, 101, 101, 32];
                let p: Vec<u8> = vec![112u8, 97, 114, 101, 110, 116, 32];
                let c: Vec<u8> = vec![99u8, 111, 109, 109, 105, 116, 116, 101, 114, 32];
                let au: Vec<u8> = vec![97u8, 117, 116, 104, 111, 114, 32];
                assert(t@ == kw_tree() && p@ == kw_parent() && c@ == kw_committer() && au@ == kw_author());
                if has_prefix(l, t.as_slice()) || has_prefix(l, p.as_slice()) || has_prefix(l, c.as_slice()) {
                    assert(log_step(st, lines@[i as int]@) == st);
                } else if has_prefix(l, au.as_slice()) {
                    let rest_text = copy_range(l, 7, l.len());
                    let ws = split_words(rest_text.as_slice());
                    if ws.len() >= 4 {
                        let m = ws.len();
                        author = Some(join_first(ws.as_slice(), m - 2));
                        assert(views(ws@)[m - 2] == ws@[m - 2]@);
                        assert(views(ws@)[m - 1] == ws@[m - 1]@);
                        match parse_i64(ws[m - 2].as_slice()) {
                            Some(e) => {
                                date = format_commit_date(e, ws[m - 1].as_slice());
                            },
                            None => {},
                        }
                    } else {
                        author = Some(rest_text);
                    }
                    assert(author_fields(st, line@.subrange(7, line@.len() as int)) == LogState { in_message, author: opt_view(author), date: opt_view(date), out: out@ });
                    assert(log_step(st, lines@[i as int]@) == author_fields(st, line@.subrange(7, line@.len() as int)));
                } else {
                    assert(log_step(st, lines@[i as int]@) == st);
                }
            }
        } else {
            if l.len() == 0 {
                out.push(10u8);
                assert(out@ =~= st.out + seq![10u8]);
                assert(log_step(st, lines@[i as int]@).out == st.out + seq![10u8]);
                assert(log_step(st, lines@[i as int]@) == LogState { in_message, author: opt_view(author), date: opt_view(date), out: out@ });
            } else {
                out.push(32u8);
                out.push(32u8);
                out.push(32u8);
                out.push(32u8);
                append_bytes(&mut out, l);
                out.push(10u8);
                assert(out@ =~= st.out + seq![32u8, 32, 32, 32] + line@ + seq![10u8]);
                assert(log_step(st, lines@[i as int]@).out == st.out + seq![32u8, 32, 32, 32] + line@ + seq![10u8]);
                assert(log_step(st, lines@[i as int]@) == LogState { in_message, author: opt_view(author), date: opt_view(date), out: out@ });
            }
        }
        assert(log_step(st, lines@[i as int]@) == LogState { in_message, author: opt_view(author), date: opt_view(date), out: out@ });
        i = i + 1;
    }
    proof {
        assert(ls.subrange(ls.len() as int, ls.len() as int) =~= Seq::<Seq<u8>>::empty());
        crate::bytes::lemma_first_index(commit_data@, 0u8, k as int);
    }
    Ok(out)
}

} // verus!

use vstd::prelude::*;
use crate::bytes::{copy_range, has_byte, same_bytes};
use crate::text::{lines_of, split_lines, trim, trim_of};

verus! {

/// Whether a glob pattern matches a path, both as UTF-8 text.
pub uninterp spec fn glob_match(pattern: Seq<u8>, path: Seq<u8>) -> bool;

/// Relies on glob's `Pattern::new` and `Pattern::matches`: whether the
/// compiled pattern matches the path, which depends on the two texts alone;
/// text that is not UTF-8, or a pattern that does not compile, matches
/// nothing.
#[verifier::external_body]
fn pattern_matches(pattern: &[u8], path: &[u8]) -> (r: bool)
    ensures
        r == glob_match(pattern@, path@),
{
    match (std::str::from_utf8(pattern), std::str::from_utf8(path)) {
        (Ok(p), Ok(s)) => glob::Pattern::new(p).map(|g| g.matches(s)).unwrap_or(false),
        _ => false,
    }
}

/// Whether a glob pattern, as UTF-8 text, compiles.
pub uninterp spec fn glob_valid(pattern: Seq<u8>) -> bool;

/// Relies on glob's `Pattern::new`: whether the text compiles as a pattern,
/// which depends on the text alone; text that is not UTF-8 does not.
#[verifier::external_body]
fn pattern_is_valid(pattern: &[u8]) -> (r: bool)
    ensures
        r == glob_valid(pattern@),
{
    std::str::from_utf8(pattern).map(|p| glob::Pattern::new(p).is_ok()).unwrap_or(false)
}

/// One rule of an ignore file.
#[derive(Debug, Clone)]
pub enum IgnoreRule {
    /// A file, matched as the whole path or as its trailing components.
    File(Vec<u8>),
    /// A directory, matched as the whole path or as its leading components.
    Directory(Vec<u8>),
    /// A glob pattern, matched against the whole path.
    Glob(Vec<u8>),
}

/// `path` is `f`, or ends with `/` followed by `f`.
pub open spec fn ends_with_components(path: Seq<u8>, f: Seq<u8>) -> bool {
    path == f || (path.len() > f.len() && path.subrange(path.len() - f.len(), path.len() as int)
        == f && path[path.len() - f.len() - 1] == 47u8)
}

/// `path` is `d`, or starts with `d` followed by `/`.
pub open spec fn starts_with_components(path: Seq<u8>, d: Seq<u8>) -> bool {
    path == d || (path.len() > d.len() && path.subrange(0, d.len() as int) == d && path[d.len() as int]
        == 47u8)
}

/// A rule matches a path relative to the repository root.
pub open spec fn rule_matches(rule: IgnoreRule, path: Seq<u8>) -> bool {
    match rule {
        IgnoreRule::File(f) => ends_with_components(path, f@),
        IgnoreRule::Directory(d) => starts_with_components(path, d@),
        IgnoreRule::Glob(g) => glob_match(g@, path),
    }
}

/// Some rule matches the path.
pub open spec fn ignored(rules: Seq<IgnoreRule>, path: Seq<u8>) -> bool {
    exists|i: int| 0 <= i < rules.len() && rule_matches(#[trigger] rules[i], path)
}

fn matches_rule(rule: &IgnoreRule, path: &[u8]) -> (r: bool)
    ensures
        r == rule_matches(*rule, path@),
{
    match rule {
        IgnoreRule::File(f) => {
            let n = path.len();
            let m = f.len();
            if same_bytes(path, f.as_slice()) {
                return true;
            }
            if n <= m {
                return false;
            }
            let tail = &path[n - m..n];
            assert(tail@ == path@.subrange(n - m, n as int));
            same_bytes(tail, f.as_slice()) && path[n - m - 1] == 47u8
        },
        IgnoreRule::Directory(d) => {
            let n = path.len();
            let m = d.len();
            if same_bytes(path, d.as_slice()) {
                return true;
            }
            if n <= m {
                return false;
            }
            let head = &path[0..m];
            assert(head@ == path@.subrange(0, m as int));
            same_bytes(head, d.as_slice()) && path[m] == 47u8
        },
        IgnoreRule::Glob(g) => pattern_matches(g.as_slice(), path),
    }
}

/// Whether some rule matches `path`, a path relative to the repository
/// root.
pub fn is_ignored(path: &[u8], rules: &[IgnoreRule]) -> (r: bool)
    ensures
        r == ignored(rules@, path@),
{
    let mut i: usize = 0;
    while i < rules.len()
        invariant
            i <= rules@.len(),
            forall|j: int| 0 <= j < i ==> !rule_matches(#[trigger] rules@[j], path@),
        decreases rules@.len() - i,
    {
        if matches_rule(&rules[i], path) {
            return true;
        }
        i = i + 1;
    }
    false
}

/// What a rule holds: its kind (0 file, 1 directory, 2 glob) and its text.
pub open spec fn rule_view(r: IgnoreRule) -> (int, Seq<u8>) {
    match r {
        IgnoreRule::File(f) => (0, f@),
        IgnoreRule::Directory(d) => (1, d@),
        IgnoreRule::Glob(g) => (2, g@),
    }
}

pub open spec fn rule_views(s: Seq<IgnoreRule>) -> Seq<(int, Seq<u8>)> {
    s.map_values(|r: IgnoreRule| rule_view(r))
}

/// `s` holds two `*` in a row.
pub open spec fn has_double_star(s: Seq<u8>) -> bool {
    exists|i: int| 0 <= i < s.len() - 1 && s[i] == 42u8 && #[trigger] s[i + 1] == 42u8
}

/// `s` without its trailing `/` bytes.
pub open spec fn trim_slashes(s: Seq<u8>) -> Seq<u8>
    decreases s.len(),
{
    if s.len() > 0 && s.last() == 47u8 {
        trim_slashes(s.drop_last())
    } else {
        s
    }
}

/// The rule that one line of an ignore file gives, once trimmed: none for
/// a blank line, a comment, or a line with a space, `**` or `!`; a
/// directory for a line ending in `/`; a glob for a line with `*` that
/// compiles (none where it does not); a file otherwise.
pub open spec fn rule_of_line(raw: Seq<u8>) -> Option<(int, Seq<u8>)> {
    let line = trim_of(raw);
    if line.len() == 0 || line[0] == 35u8 {
        None
    } else if has_byte(line, 32) || has_double_star(line) || has_byte(line, 33) {
        None
    } else if line.last() == 47u8 {
        Some((1, trim_slashes(line)))
    } else if has_byte(line, 42) {
        if glob_valid(line) {
            Some((2, line))
        } else {
            None
        }
    } else {
        Some((0, line))
    }
}

/// The rules that the lines of an ignore file give, in order.
pub open spec fn rules_of_lines(lines: Seq<Seq<u8>>) -> Seq<(int, Seq<u8>)>
    decreases lines.len(),
{
    if lines.len() == 0 {
        seq![]
    } else {
        match rule_of_line(lines[0]) {
            Some(r) => seq![r] + rules_of_lines(lines.drop_first()),
            None => rules_of_lines(lines.drop_first()),
        }
    }
}

fn contains_byte(s: &[u8], x: u8) -> (r: bool)
    ensures
        r == has_byte(s@, x),
{
    crate::bytes::find_byte(s, x).is_some()
}

fn contains_double_star(s: &[u8]) -> (r: bool)
    ensures
        r == has_double_star(s@),
{
    let mut i: usize = 0;
    while i < s.len() && i + 1 < s.len()
        invariant
            i <= s@.len(),
            forall|j: int| 0 <= j < i && j < s@.len() - 1 ==> !(s@[j] == 42u8 && #[trigger] s@[j + 1] == 42u8),
        decreases s@.len() - i,
    {
        if s[i] == 42u8 && s[i + 1] == 42u8 {
            return true;
        }
        i = i + 1;
    }
    false
}

fn without_slashes(s: &[u8]) -> (r: Vec<u8>)
    ensures
        r@ == trim_slashes(s@),
{
    let mut hi: usize = s.len();
    assert(s@.subrange(0, hi as int) =~= s@);
    while hi > 0 && s[hi - 1] == 47u8
        invariant
            hi <= s@.len(),
            trim_slashes(s@) == trim_slashes(s@.subrange(0, hi as int)),
        decreases hi,
    {
        assert(s@.subrange(0, hi as int).drop_last() =~= s@.subrange(0, hi - 1));
        hi = hi - 1;
    }
    copy_range(s, 0, hi)
}

fn rule_from_line(raw: &[u8]) -> (r: Option<IgnoreRule>)
    ensures
        match r {
            Some(rule) => rule_of_line(raw@) == Some(rule_view(rule)),
            None => rule_of_line(raw@) is None,
        },
{
    let line = trim(raw);
    let l = line.as_slice();
    if l.len() == 0 || l[0] == 35u8 {
        return None;
    }
    if contains_byte(l, 32u8) || contains_double_star(l) || contains_byte(l, 33u8) {
        return None;
    }
    if l[l.len() - 1] == 47u8 {
        return Some(IgnoreRule::Directory(without_slashes(l)));
    }
    if contains_byte(l, 42u8) {
        if pattern_is_valid(l) {
            return Some(IgnoreRule::Glob(line));
        }
        return None;
    }
    Some(IgnoreRule::File(line))
}

/// Reads the rules of an ignore file, one per line that gives one, in
/// order.
pub fn parse_ignore_file(content: &[u8]) -> (r: Vec<IgnoreRule>)
    ensures
        rule_views(r@) == rules_of_lines(lines_of(content@)),
{
    let lines = split_lines(content);
    let ghost ls = lines_of(content@);
    let mut out: Vec<IgnoreRule> = Vec::new();
    let mut i: usize = 0;
    assert(ls.subrange(0, ls.len() as int) =~= ls);
    assert(rule_views(out@) + rules_of_lines(ls) =~= rules_of_lines(ls));
    while i < lines.len()
        invariant
            ls == crate::text::views(lines@),
            i <= lines@.len(),
            rules_of_lines(ls) == rule_views(out@) + rules_of_lines(ls.subrange(i as int, ls.len() as int)),
        decreases lines@.len() - i,
    {
        let ghost rest = ls.subrange(i as int, ls.len() as int);
        assert(rest.drop_first() =~= ls.subrange(i + 1, ls.len() as int));
        assert(rest[0] == lines@[i as int]@);
        let ghost before = rule_views(out@);
        match rule_from_line(lines[i].as_slice()) {
            Some(rule) => {
                out.push(rule);
                assert(rule_views(out@) =~= before + seq![rule_view(rule)]);
                assert(rule_views(out@) + rules_of_lines(rest.drop_first()) =~= before + rules_of_lines(rest));
            },
            None => {},
        }
        i = i + 1;
    }
    assert(rule_views(out@) + Seq::<(int, Seq<u8>)>::empty() =~= rule_views(out@));
    out
}

} // verus!

use rustygit::error::VcsError;
use rustygit::ignore::{is_ignored, parse_ignore_file, IgnoreRule};
use rustygit::logfmt::format_commit_history;
use rustygit::text::split_lines;
use rustygit::time::{format_commit_date, format_timezone};

fn rule_text(r: &IgnoreRule) -> (u8, String) {
    match r {
        IgnoreRule::File(f) => (0, String::from_utf8(f.clone()).unwrap()),
        IgnoreRule::Directory(d) => (1, String::from_utf8(d.clone()).unwrap()),
        IgnoreRule::Glob(g) => (2, String::from_utf8(g.clone()).unwrap()),
    }
}

#[test]
fn ignore_specific_file() {
    let rules = parse_ignore_file(b"secret.txt\n");
    assert!(is_ignored(b"secret.txt", &rules));
    assert!(!is_ignored(b"visible.txt", &rules));
}

#[test]
fn ignore_directory() {
    let rules = parse_ignore_file(b"target/\n");
    assert!(is_ignored(b"target", &rules));
    assert!(is_ignored(b"target/file.o", &rules));
    assert!(!is_ignored(b"src/main.rs", &rules));
}

#[test]
fn ignore_glob_pattern() {
    let rules = parse_ignore_file(b"*.log\n");
    assert!(is_ignored(b"debug.log", &rules));
    assert!(!is_ignored(b"info.txt", &rules));
}

#[test]
fn gitignore_file_is_not_tracked() {
    let rules = parse_ignore_file(b"foo\n");
    assert!(!is_ignored(b".gitignore", &rules));
}

#[test]
fn ignore_file_lines_are_classified() {
    let rules = parse_ignore_file(b"# comment\n\n  a.txt \r\nbuild//\n*.tmp\nx y\n**/z\n!keep\n[\n[*\n.rustygitignore");
    let got: Vec<(u8, String)> = rules.iter().map(rule_text).collect();
    assert_eq!(
        got,
        vec![
            (0, "a.txt".to_string()),
            (1, "build".to_string()),
            (2, "*.tmp".to_string()),
            (0, "[".to_string()),
            (0, ".rustygitignore".to_string()),
        ]
    );
}

#[test]
fn lines_split_like_str_lines() {
    assert_eq!(split_lines(b"a\nb\n"), vec![b"a".to_vec(), b"b".to_vec()]);
    assert_eq!(split_lines(b"a\n\nb"), vec![b"a".to_vec(), b"".to_vec(), b"b".to_vec()]);
    assert!(split_lines(b"").is_empty());
}

#[test]
fn timezone_text() {
    assert_eq!(format_timezone(19800), b"+0530".to_vec());
    assert_eq!(format_timezone(-25200), b"-0700".to_vec());
    assert_eq!(format_timezone(0), b"+0000".to_vec());
    assert_eq!(format_timezone(86399), b"+2359".to_vec());
    assert_eq!(format_timezone(-60), b"-0001".to_vec());
}

#[test]
fn commit_date_text() {
    assert_eq!(format_commit_date(0, b"+0000").unwrap(), b"Thu Jan  1 00:00:00 1970 +0000".to_vec());
    assert_eq!(format_commit_date(0, b"+0530").unwrap(), b"Thu Jan  1 05:30:00 1970 +0530".to_vec());
    assert_eq!(format_commit_date(0, b"junk").unwrap(), b"Thu Jan  1 00:00:00 1970 +0000".to_vec());
    assert_eq!(format_commit_date(0, b"+9999"), None);
}

#[test]
fn log_single_commit() {
    let payload = b"tree 1111111111111111111111111111111111111111\nauthor Ann Lee <ann@example.com> 0 +0000\ncommitter Ann Lee <ann@example.com> 0 +0000\n\nfirst\n\nbody line";
    let mut data = format!("commit {}\0", payload.len()).into_bytes();
    data.extend_from_slice(payload);
    let out = format_commit_history(&data, b"abc").unwrap();
    assert_eq!(
        String::from_utf8(out).unwrap(),
        "commit abc\nAuthor: Ann Lee <ann@example.com>\nDate:   Thu Jan  1 00:00:00 1970 +0000\n\n    first\n\n    body line\n"
    );
}

#[test]
fn log_fails_on_bad_object() {
    assert_eq!(format_commit_history(b"commit 0", b"abc"), Err(VcsError::CorruptObject));
    assert_eq!(format_commit_history(b"tree 0\0", b"abc"), Err(VcsError::CorruptObject));
}

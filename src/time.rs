use vstd::prelude::*;
use crate::commit::opt_view;

verus! {

/// The text of an instant shown at a fixed offset from UTC, as chrono
/// formats it with `%a %b %e %H:%M:%S %Y %z`; none where chrono cannot
/// represent the instant.
pub uninterp spec fn date_text(epoch: int, offset: int) -> Option<Seq<u8>>;

/// Relies on chrono's `DateTime::from_timestamp`, `with_timezone` and
/// `format`: the instant `epoch` shown at `offset` seconds east of UTC,
/// which depends on the two numbers alone.
#[verifier::external_body]
fn chrono_date(epoch: i64, offset: i32) -> (r: Option<Vec<u8>>)
    requires
        -86400 < offset < 86400,
    ensures
        opt_view(r) == date_text(epoch as int, offset as int),
{
    let off = chrono::FixedOffset::east_opt(offset)?;
    let dt = chrono::DateTime::from_timestamp(epoch, 0)?;
    Some(dt.with_timezone(&off).format("%a %b %e %H:%M:%S %Y %z").to_string().into_bytes())
}

/// Two decimal digits of a number below 100.
pub open spec fn two_digits(n: int) -> Seq<u8> {
    seq![(48 + n / 10) as u8, (48 + n % 10) as u8]
}

/// An offset from UTC in seconds as text: a sign, then hours and minutes
/// in two digits each, such as `+0530` or `-0700`.
pub open spec fn tz_text(off: int) -> Seq<u8> {
    let a = if off < 0 { -off } else { off };
    seq![if off >= 0 { 43u8 } else { 45u8 }] + two_digits(a / 3600) + two_digits((a % 3600) / 60)
}

/// Writes an offset from UTC, in seconds strictly within a day, as text.
pub fn format_timezone(offset: i32) -> (r: Vec<u8>)
    requires
        -86400 < offset < 86400,
    ensures
        r@ == tz_text(offset as int),
{
    let a: i32 = if offset < 0 { -offset } else { offset };
    let h: i32 = a / 3600;
    let m: i32 = (a % 3600) / 60;
    let sign: u8 = if offset >= 0 { 43u8 } else { 45u8 };
    let r: Vec<u8> = vec![sign, (48 + h / 10) as u8, (48 + h % 10) as u8, (48 + m / 10) as u8, (48 + m % 10) as u8];
    assert(r@ =~= tz_text(offset as int));
    r
}

/// The value of a two-byte number as `i32` parsing reads it: two digits,
/// or a sign and one digit.
pub open spec fn two_char_value(a: u8, b: u8) -> Option<int> {
    let da = 48 <= a <= 57;
    let db = 48 <= b <= 57;
    if da && db {
        Some((a - 48) * 10 + (b - 48))
    } else if a == 43u8 && db {
        Some(b - 48)
    } else if a == 45u8 && db {
        Some(-(b - 48))
    } else {
        None
    }
}

/// The offset in minutes that timezone text stands for: `±hhmm`, where both
/// halves read as numbers, else zero.
pub open spec fn tz_minutes(tz: Seq<u8>) -> int {
    if tz.len() == 5 {
        match (two_char_value(tz[1], tz[2]), two_char_value(tz[3], tz[4])) {
            (Some(h), Some(m)) => if tz[0] == 45u8 { -(h * 60 + m) } else { h * 60 + m },
            _ => 0,
        }
    } else {
        0
    }
}

fn read_two(a: u8, b: u8) -> (r: Option<i32>)
    ensures
        match r {
            Some(v) => two_char_value(a, b) == Some(v as int),
            None => two_char_value(a, b) is None,
        },
{
    let da = 48 <= a && a <= 57;
    let db = 48 <= b && b <= 57;
    if da && db {
        Some(((a - 48) as i32) * 10 + ((b - 48) as i32))
    } else if a == 43u8 && db {
        Some((b - 48) as i32)
    } else if a == 45u8 && db {
        Some(-((b - 48) as i32))
    } else {
        None
    }
}

/// A commit's time as shown: the instant at the offset that its timezone
/// text gives, none where that offset is a day or more.
pub open spec fn commit_date(epoch: int, tz: Seq<u8>) -> Option<Seq<u8>> {
    if -86400 < tz_minutes(tz) * 60 < 86400 {
        date_text(epoch, tz_minutes(tz) * 60)
    } else {
        None
    }
}

/// Shows a commit's time, `epoch` seconds since the Unix epoch, at the
/// offset that its timezone text gives (zero where the text is not
/// `±hhmm`); none where that offset is a day or more, or where the instant
/// cannot be shown.
pub fn format_commit_date(epoch: i64, tz: &[u8]) -> (r: Option<Vec<u8>>)
    ensures
        opt_view(r) == commit_date(epoch as int, tz@),
{
    let mut minutes: i32 = 0;
    if tz.len() == 5 {
        match (read_two(tz[1], tz[2]), read_two(tz[3], tz[4])) {
            (Some(h), Some(m)) => {
                let total = h * 60 + m;
                minutes = if tz[0] == 45u8 { -total } else { total };
            },
            _ => {},
        }
    }
    assert(minutes as int == tz_minutes(tz@));
    let secs = minutes * 60;
    if !(-86400 < secs && secs < 86400) {
        return None;
    }
    chrono_date(epoch, secs)
}

} // verus!

use vstd::prelude::*;
use chrono::{DateTime, Local};
use crate::text::nat_digits;

verus! {

/// What `chrono::DateTime::parse_from_rfc3339` makes of a text: `None` when it
/// rejects it, otherwise the instant as whole seconds since the Unix epoch in
/// UTC (rounded down), and whether the instant falls in a leap second (a
/// seconds field of `60`).
pub uninterp spec fn rfc3339_instant(s: Seq<char>) -> Option<(int, bool)>;

/// The decimal digits of `n`, padded with leading zeros to `width` digits.
pub open spec fn padded(n: nat, width: nat) -> Seq<char> {
    let d = nat_digits(n);
    if d.len() >= width {
        d
    } else {
        Seq::new((width - d.len()) as nat, |i: int| '0') + d
    }
}

/// A year as `%Y` writes it: four digits for years 0 to 9999, otherwise a
/// sign followed by at least four digits.
pub open spec fn year_text(y: int) -> Seq<char> {
    if 0 <= y <= 9999 {
        padded(y as nat, 4)
    } else if y >= 0 {
        seq!['+'] + padded(y as nat, 4)
    } else {
        seq!['-'] + padded((-y) as nat, 4)
    }
}

/// Year, month and day of the proleptic Gregorian calendar for a count of
/// days since 1970-01-01.
pub open spec fn civil_from_days(days: int) -> (int, int, int) {
    let z = days + 719468;
    let era = z / 146097;
    let doe = z - era * 146097;
    let yoe = (doe - doe / 1460 + doe / 36524 - doe / 146096) / 365;
    let doy = doe - (365 * yoe + yoe / 4 - yoe / 100);
    let mp = (5 * doy + 2) / 153;
    let d = doy - (153 * mp + 2) / 5 + 1;
    let m = if mp < 10 {
        mp + 3
    } else {
        mp - 9
    };
    let y = yoe + era * 400 + (if m <= 2 {
        1int
    } else {
        0int
    });
    (y, m, d)
}

/// An offset from UTC as `%z` writes it: sign, then hours and minutes of two
/// digits each, the offset rounded to the nearest minute.
pub open spec fn offset_text(off: int) -> Seq<char> {
    let a = if off < 0 {
        -off
    } else {
        off
    };
    let minutes = (a + 30) / 60;
    (if off < 0 {
        seq!['-']
    } else {
        seq!['+']
    }) + padded((minutes / 60) as nat, 2) + padded((minutes % 60) as nat, 2)
}

/// The text `%Y-%m-%dT%H:%M:%S%z` gives for a local wall clock time of `local`
/// seconds since the epoch at offset `off` seconds east of UTC; in a leap
/// second the seconds field is one more.
pub open spec fn stamp_text(local: int, off: int, leap: bool) -> Seq<char> {
    let days = local / 86400;
    let sod = local % 86400;
    let (y, m, d) = civil_from_days(days);
    let sec = sod % 60 + (if leap {
        1int
    } else {
        0int
    });
    year_text(y) + seq!['-'] + padded(m as nat, 2) + seq!['-'] + padded(d as nat, 2) + seq!['T']
        + padded((sod / 3600) as nat, 2) + seq![':'] + padded(((sod % 3600) / 60) as nat, 2)
        + seq![':'] + padded(sec as nat, 2) + offset_text(off)
}

/// Whether `t` is the instant (UTC seconds, leap second or not) written as its
/// wall clock time at some offset of less than a day from UTC.
pub open spec fn local_stamp(t: Seq<char>, instant: (int, bool)) -> bool {
    exists|off: int|
        -86400 < off < 86400 && t == #[trigger] stamp_text(instant.0 + off, off, instant.1)
}

/// Calls `chrono::DateTime::parse_from_rfc3339(raw)`, then, on success,
/// `with_timezone(&chrono::Local)` and `format(pattern)` on the parsed instant,
/// rendered to a `String`. Claimed: the result is `Some` exactly when chrono
/// accepts the text, and then it is the parsed instant written as
/// `%Y-%m-%dT%H:%M:%S%z` at some offset of less than a day: the offset that
/// the machine's time zone gives, which is left unsaid. Only the pattern
/// `%Y-%m-%dT%H:%M:%S%z` is admitted, since rendering a pattern that chrono
/// rejects panics. Chrono panics when the machine's time zone data cannot be
/// read.
#[verifier::external_body]
fn local_time_text(raw: &str, pattern: &str) -> (r: Option<String>)
    requires
        pattern@ == "%Y-%m-%dT%H:%M:%S%z"@,
    ensures
        r is Some <==> rfc3339_instant(raw@) is Some,
        r matches Some(t) ==> local_stamp(t@, rfc3339_instant(raw@)->0),
{
    match DateTime::parse_from_rfc3339(raw) {
        Ok(dt) => Some(dt.with_timezone(&Local).format(pattern).to_string()),
        Err(_) => None,
    }
}

/// The build time stamp, given in RFC 3339, as the wall clock time of the
/// local time zone in the layout `%Y-%m-%dT%H:%M:%S%z`; `None` when the stamp
/// is not RFC 3339.
pub fn vergen_build_timestamp(raw: &str) -> (r: Option<String>)
    ensures
        r is Some <==> rfc3339_instant(raw@) is Some,
        r matches Some(t) ==> local_stamp(t@, rfc3339_instant(raw@)->0),
{
    local_time_text(raw, "%Y-%m-%dT%H:%M:%S%z")
}

/// `+{insertions}-{deletions}` for a working tree with changes.
pub open spec fn shortstat_spec(
    dirty: Seq<char>,
    insertions: Seq<char>,
    deletions: Seq<char>,
) -> Option<Seq<char>> {
    if dirty == "true"@ {
        Some("+"@ + insertions + "-"@ + deletions)
    } else {
        None
    }
}

/// The changed line counts of a dirty build tree: `Some("+{insertions}-{deletions}")`
/// when `dirty` is `"true"`, otherwise `None`.
pub fn git_shortstat(dirty: &str, insertions: &str, deletions: &str) -> (r: Option<String>)
    ensures
        match r {
            Some(s) => shortstat_spec(dirty@, insertions@, deletions@) == Some(s@),
            None => shortstat_spec(dirty@, insertions@, deletions@) is None,
        },
{
    let d = String::from_str(dirty);
    let t = String::from_str("true");
    if d == t {
        let mut s = String::new();
        s.append("+");
        s.append(insertions);
        s.append("-");
        s.append(deletions);
        Some(s)
    } else {
        None
    }
}

/// The text of the version reply.
pub open spec fn version_text_spec(
    version: Seq<char>,
    target: Seq<char>,
    branch: Seq<char>,
    describe: Seq<char>,
    shortstat: Option<Seq<char>>,
    built: Seq<char>,
) -> Seq<char> {
    "```\nv"@ + version + "\n"@ + target + "\n("@ + branch + ") "@ + describe + (match shortstat {
        Some(s) => s,
        None => Seq::empty(),
    }) + "\n"@ + built + "```"@
}

/// The version reply: version, target, branch, description of the commit, the
/// changed line counts of a dirty tree, and the build time.
pub fn version_text(
    version: &str,
    target: &str,
    branch: &str,
    describe: &str,
    shortstat: Option<String>,
    built: &str,
) -> (r: String)
    ensures
        r@ == version_text_spec(
            version@,
            target@,
            branch@,
            describe@,
            match shortstat {
                Some(s) => Some(s@),
                None => None,
            },
            built@,
        ),
{
    let mut r = String::new();
    r.append("```\nv");
    r.append(version);
    r.append("\n");
    r.append(target);
    r.append("\n(");
    r.append(branch);
    r.append(") ");
    r.append(describe);
    let ghost before = r@;
    match &shortstat {
        Some(s) => {
            r.append(s.as_str());
        },
        None => {},
    }
    assert(r@ =~= before + match shortstat {
        Some(s) => s@,
        None => Seq::<char>::empty(),
    });
    r.append("\n");
    r.append(built);
    r.append("```");
    r
}

} // verus!

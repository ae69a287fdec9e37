use kino::diff::{create_patch, patch_body};
use kino::models::Watchlist;
use kino::shortstat::shortstat_counts;
use kino::tmdb::{bearer_header, search_query, search_reply, ResultId, SearchError, SearchReply};
use kino::version::{git_shortstat, vergen_build_timestamp, version_text};
use kino::watchlist::{
    clear_choice, editor_content, fits_in_editor, initial_content, list_exists_reply, may_set_up,
    nonblank_lines, notify_or_default, pinned_content, plan_edit, removed_entries, ClearChoice,
    EditPlan, MODAL_INPUT_LIMIT,
};

fn reference_patch(old: &str, new: &str, max_body: usize) -> String {
    let patch = diffy::create_patch(old, new);
    let lines: Vec<String> = diffy::PatchFormatter::new()
        .missing_newline_message(false)
        .fmt_patch(&patch)
        .to_string()
        .lines()
        .filter(|l| !l.starts_with("---") && !l.starts_with("+++"))
        .map(|l| l.to_owned())
        .collect();
    let mut body = String::new();
    let mut truncated = 0_usize;
    for (index, line) in lines.iter().enumerate() {
        if body.len() + line.len() + 1 > max_body {
            truncated = lines.len() - index;
            break;
        }
        body.push_str(line);
        body.push('\n');
    }
    if truncated > 0 {
        body.push_str(&format!("\u{2026} {truncated} more diff lines\n"));
    }
    body
}

fn list() -> Watchlist {
    Watchlist {
        id: 1,
        guild_id: 10,
        channel_id: 20,
        message_id: 30,
        author_id: 40,
        revision: 3,
        created_at: 100,
        updated_at: 200,
    }
}

#[test]
fn patch_shows_changed_lines() {
    assert_eq!(create_patch("a\nb\n", "a\nc\n", 1500), "@@ -1,2 +1,2 @@\n a\n-b\n+c\n");
    assert_eq!(create_patch("a\n", "a\n", 1500), "");
}

#[test]
fn patch_is_cut_to_its_budget() {
    assert_eq!(create_patch("a\nb\n", "a\nc\n", 20), "@@ -1,2 +1,2 @@\n a\n\u{2026} 2 more diff lines\n");
    assert_eq!(create_patch("a\nb\n", "a\nc\n", 0), "\u{2026} 4 more diff lines\n");
}

#[test]
fn patch_agrees_with_reference() {
    let old: String = (0..200).map(|i| format!("Movie {i}\n")).collect();
    let new: String = (0..200).filter(|i| i % 7 != 0).map(|i| format!("Movie {i}\n")).chain(["New one\n".to_string()]).collect();
    for max in [0, 10, 100, 1500, 100000] {
        assert_eq!(create_patch(&old, &new, max), reference_patch(&old, &new, max));
        let body = create_patch(&old, &new, max);
        assert!(body.len() <= max + 44);
    }
    assert_eq!(create_patch("x", "y", 1500), reference_patch("x", "y", 1500));
}

#[test]
fn patch_body_drops_file_headers() {
    assert_eq!(patch_body("--- a\n+++ b\n@@ x @@\n-1\n+2", 100), "@@ x @@\n-1\n+2\n");
    assert_eq!(patch_body("", 100), "");
}

#[test]
fn shortstat_of_dirty_and_clean_trees() {
    assert_eq!(git_shortstat("true", "12", "3"), Some("+12-3".to_string()));
    assert_eq!(git_shortstat("false", "12", "3"), None);
    assert_eq!(git_shortstat("True", "1", "1"), None);
}

#[test]
fn version_reply_layout() {
    let t = version_text("0.1.0", "x86_64-unknown-linux-gnu", "main", "v0.1-3-gabc", Some("+1-2".to_string()), "2024-01-01T00:00:00+0000");
    assert_eq!(t, "```\nv0.1.0\nx86_64-unknown-linux-gnu\n(main) v0.1-3-gabc+1-2\n2024-01-01T00:00:00+0000```");
    let t = version_text("1", "t", "b", "d", None, "z");
    assert_eq!(t, "```\nv1\nt\n(b) d\nz```");
}

#[test]
fn build_timestamp_is_shown_in_local_time() {
    let t = vergen_build_timestamp("2024-05-06T07:08:09Z").unwrap();
    assert_eq!(t.len(), 24);
    assert!(t.starts_with("2024-05-0"));
    assert_eq!(vergen_build_timestamp("not a time"), None);
    assert_eq!(vergen_build_timestamp(""), None);
}

#[test]
fn search_query_with_and_without_year() {
    let q = search_query("Heat", Some(1995));
    let want: Vec<(String, String)> = vec![
        ("query".into(), "Heat".into()),
        ("include_adult".into(), "true".into()),
        ("language".into(), "en-US".into()),
        ("year".into(), "1995".into()),
    ];
    assert_eq!(q, want);
    assert_eq!(search_query("Up", None).len(), 3);
    assert_eq!(bearer_header("abc"), "Bearer abc");
}

#[test]
fn search_reply_cases() {
    assert_eq!(search_reply(&vec![]), Ok(SearchReply::NoMatches));
    assert_eq!(search_reply(&vec![ResultId::Id(603), ResultId::Missing]), Ok(SearchReply::Link("https://letterboxd.com/tmdb/603".to_string())));
    assert_eq!(search_reply(&vec![ResultId::Missing]), Err(SearchError::MissingId));
    assert_eq!(search_reply(&vec![ResultId::NotInteger]), Err(SearchError::IdNotNumber));
    assert_eq!(SearchError::MissingId.message(), "Could not determine TMDB ID.");
    assert_eq!(SearchError::IdNotNumber.message(), "TMDB ID must be a number.");
    assert_eq!(SearchReply::NoMatches.text(), "no matches found!");
}

#[test]
fn editor_text_and_limits() {
    let names = vec!["Alien".to_string(), "Heat".to_string()];
    assert_eq!(editor_content(&names), "Alien\nHeat\n");
    assert_eq!(editor_content(&vec![]), "\n");
    assert!(fits_in_editor(&"a".repeat(MODAL_INPUT_LIMIT)));
    assert!(!fits_in_editor(&"a".repeat(MODAL_INPUT_LIMIT + 1)));
    assert!(!fits_in_editor(&"é".repeat(2001)));
    assert_eq!(nonblank_lines(&editor_content(&names)), names);
}

#[test]
fn nonblank_lines_and_removed_entries() {
    assert_eq!(nonblank_lines("a\n \n\tb\r\n\n"), vec!["a".to_string(), "\tb".to_string()]);
    let old = vec!["a".to_string(), "b".to_string(), "c".to_string()];
    let new = vec!["c".to_string(), "d".to_string()];
    assert_eq!(removed_entries(&old, &new), vec!["a".to_string(), "b".to_string()]);
    assert_eq!(removed_entries(&old, &old), Vec::<String>::new());
}

#[test]
fn plan_of_an_edit() {
    match plan_edit("Alien\nHeat\n", "- Alien\n* heat\nUp\n") {
        EditPlan::Changed { new_content, new_entries, removed } => {
            assert_eq!(new_content, "Alien\nheat\nUp\n");
            assert_eq!(new_entries, vec!["Alien".to_string(), "heat".to_string(), "Up".to_string()]);
            assert_eq!(removed, vec!["Heat".to_string()]);
        }
        EditPlan::Unchanged => panic!("expected a change"),
    }
    assert!(matches!(plan_edit("Alien\nHeat\n", "1. Alien\n2. Heat"), EditPlan::Unchanged));
    assert!(matches!(plan_edit("Alien\nHeat\n", "Alien\nHeat\n"), EditPlan::Unchanged));
}

#[test]
fn notify_defaults_to_true() {
    assert!(notify_or_default(None));
    assert!(notify_or_default(Some(true)));
    assert!(!notify_or_default(Some(false)));
}

#[test]
fn pinned_and_initial_messages() {
    let l = list();
    assert_eq!(
        pinned_content(&l, "Alien\n\nHeat\n"),
        "## Watch List\n-# 2 entries\n\n1. Alien\n2. Heat\n\n-# last updated by <@40> <t:200:R> \u{2022} edit with `/watchlist edit`"
    );
    assert_eq!(
        initial_content(300, 9),
        "## Watch List\n-# 0 entries\n\n*the list is empty.*\n-# last updated by <@9> <t:300:R> \u{2022} edit with `/watchlist edit`"
    );
}

#[test]
fn replies_and_choices() {
    assert_eq!(list_exists_reply(&list()), "a list already exists for this channel: https://discord.com/channels/10/20/30.");
    assert!(may_set_up(Some((true, false))));
    assert!(may_set_up(Some((false, true))));
    assert!(!may_set_up(Some((false, false))));
    assert!(!may_set_up(None));
    assert_eq!(clear_choice("confirm_yes"), ClearChoice::Confirm);
    assert_eq!(clear_choice("confirm_no"), ClearChoice::Cancel);
    assert_eq!(clear_choice("other"), ClearChoice::Other);
}

#[test]
fn edit_stores_exactly_the_normalized_entries() {
    for submitted in ["- Alien\n* alien\n2) Heat\n", "", "\n\n", "a\r\nb\r\nA"] {
        let normalized = kino::pinned_message::WatchListPinnedMessage::normalize(submitted);
        let stored = nonblank_lines(&normalized);
        let expected: Vec<String> = normalized.lines().map(|l| l.to_string()).filter(|l| !l.is_empty()).collect();
        assert_eq!(stored, expected);
        assert_eq!(editor_content(&stored), normalized);
    }
}

#[test]
fn removed_entries_are_old_and_not_new() {
    let old: Vec<String> = ["a", "b", "c", "b"].iter().map(|s| s.to_string()).collect();
    let new: Vec<String> = ["b", "x"].iter().map(|s| s.to_string()).collect();
    let removed = removed_entries(&old, &new);
    assert_eq!(removed, vec!["a".to_string(), "c".to_string()]);
    for r in &removed {
        assert!(old.contains(r) && !new.contains(r));
    }
}

fn reference_shortstat(stdout: &str) -> (u32, u32) {
    let stats = stdout.trim();
    let parts: Vec<&str> = stats.split(',').collect();
    let mut insertions = 0;
    let mut deletions = 0;
    for part in parts {
        if part.contains("insertion") {
            insertions = part.split_whitespace().next().unwrap_or("0").parse().unwrap_or(0);
        } else if part.contains("deletion") {
            deletions = part.split_whitespace().next().unwrap_or("0").parse().unwrap_or(0);
        }
    }
    (insertions, deletions)
}

#[test]
fn shortstat_counts_reads_git_output() {
    assert_eq!(shortstat_counts(" 3 files changed, 12 insertions(+), 4 deletions(-)\n"), (12, 4));
    assert_eq!(shortstat_counts(" 1 file changed, 1 insertion(+)\n"), (1, 0));
    assert_eq!(shortstat_counts(" 1 file changed, 7 deletions(-)"), (0, 7));
    assert_eq!(shortstat_counts(""), (0, 0));
    assert_eq!(shortstat_counts("x, 99999999999 insertions"), (0, 0));
    assert_eq!(shortstat_counts("+5 insertions, -3 deletions"), (5, 0));
}

#[test]
fn shortstat_counts_agrees_with_reference() {
    let samples = [
        " 3 files changed, 12 insertions(+), 4 deletions(-)\n", "insertion", "deletion", ",,,",
        "4294967295 insertions", "4294967296 insertions", "  7\u{3000}insertions", "5a insertions",
        "1 insertion, 2 insertion, 3 deletion", "2 deletions, 9 insertions", "+ insertions",
        "++1 insertions", "0001 insertions", "\t 8 deletion(-) ,", "x insertion(+), 3 deletion",
    ];
    for s in samples {
        assert_eq!(shortstat_counts(s), reference_shortstat(s), "input {:?}", s);
    }
}

#[test]
fn build_timestamp_matches_chrono() {
    for raw in ["2024-05-06T07:08:09Z", "2000-02-29T23:59:59+05:30", "1999-12-31T23:59:60Z", "0000-01-01T00:00:00-01:00"] {
        let want = chrono::DateTime::parse_from_rfc3339(raw)
            .unwrap()
            .with_timezone(&chrono::Local)
            .format("%Y-%m-%dT%H:%M:%S%z")
            .to_string();
        assert_eq!(vergen_build_timestamp(raw), Some(want));
    }
}

fn mirror_padded(n: i64, width: usize) -> String {
    format!("{:0width$}", n, width = width)
}

fn mirror_civil(days: i64) -> (i64, i64, i64) {
    let z = days + 719468;
    let era = z.div_euclid(146097);
    let doe = z - era * 146097;
    let yoe = (doe - doe / 1460 + doe / 36524 - doe / 146096) / 365;
    let doy = doe - (365 * yoe + yoe / 4 - yoe / 100);
    let mp = (5 * doy + 2) / 153;
    let d = doy - (153 * mp + 2) / 5 + 1;
    let m = if mp < 10 { mp + 3 } else { mp - 9 };
    (yoe + era * 400 + if m <= 2 { 1 } else { 0 }, m, d)
}

/// The layout that the time stamp contract describes, written out as code.
fn mirror_stamp(local: i64, off: i64, leap: bool) -> String {
    let days = local.div_euclid(86400);
    let sod = local.rem_euclid(86400);
    let (y, m, d) = mirror_civil(days);
    let year = if (0..=9999).contains(&y) {
        mirror_padded(y, 4)
    } else if y >= 0 {
        format!("+{}", mirror_padded(y, 4))
    } else {
        format!("-{}", mirror_padded(-y, 4))
    };
    let minutes = (off.abs() + 30) / 60;
    format!(
        "{}-{}-{}T{}:{}:{}{}{}{}",
        year,
        mirror_padded(m, 2),
        mirror_padded(d, 2),
        mirror_padded(sod / 3600, 2),
        mirror_padded((sod % 3600) / 60, 2),
        mirror_padded(sod % 60 + if leap { 1 } else { 0 }, 2),
        if off < 0 { "-" } else { "+" },
        mirror_padded(minutes / 60, 2),
        mirror_padded(minutes % 60, 2)
    )
}

#[test]
fn stamp_layout_matches_chrono_formatting() {
    let instants: [i64; 8] = [0, 1704164645, -62167219200, 253402300799, 951868799, -1, 86399, 1234567890];
    let offsets: [i32; 8] = [0, 19800, -3600, 86399, -86399, 561, -29, 30];
    for &secs in &instants {
        for &off in &offsets {
            for leap in [false, true] {
                if leap && secs.rem_euclid(60) != 59 {
                    continue;
                }
                let nanos = if leap { 1_000_000_000 } else { 0 };
                let utc = chrono::DateTime::from_timestamp(secs, nanos).unwrap();
                let fixed = chrono::FixedOffset::east_opt(off).unwrap();
                let text = utc.with_timezone(&fixed).format("%Y-%m-%dT%H:%M:%S%z").to_string();
                assert_eq!(text, mirror_stamp(secs + off as i64, off as i64, leap), "{} {} {}", secs, off, leap);
            }
        }
    }
}

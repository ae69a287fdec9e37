use kino::links::{letterboxd_url, message_link};
use kino::pinned_message::WatchListPinnedMessage;
use kino::text::{chars_of, on_char_boundary, string_of, truncate_bytes};

fn reference_strip_marker(line: &str) -> &str {
    let trimmed = line.trim();
    for marker in ["- ", "* ", "+ ", "\u{2022} ", "\u{2013} ", "\u{2014} "] {
        if let Some(rest) = trimmed.strip_prefix(marker) {
            return rest.trim_start();
        }
    }
    let digits: String = trimmed.chars().take_while(char::is_ascii_digit).collect();
    if !digits.is_empty() && digits.len() <= 4 {
        let rest = &trimmed[digits.len()..];
        for separator in [". ", ") ", "- ", ".", ")"] {
            if let Some(rest) = rest.strip_prefix(separator) {
                return rest.trim_start();
            }
        }
    }
    trimmed
}

fn reference_normalize(input: &str) -> String {
    let mut entries: Vec<String> = vec![];
    for line in input.replace('\r', "").lines() {
        let entry = reference_strip_marker(line);
        if entry.is_empty() {
            continue;
        }
        let already_present = entries.iter().any(|existing| existing.eq_ignore_ascii_case(entry));
        if !already_present {
            entries.push(entry.to_owned());
        }
    }
    let mut content = entries.join("\n");
    content.push('\n');
    content
}

#[test]
fn message_link_formats_ids() {
    assert_eq!(message_link(1, 22, 333), "https://discord.com/channels/1/22/333");
    assert_eq!(
        message_link(-5, 0, i64::MAX),
        "https://discord.com/channels/-5/0/9223372036854775807"
    );
    assert_eq!(
        message_link(i64::MIN, 10, 7),
        "https://discord.com/channels/-9223372036854775808/10/7"
    );
}

#[test]
fn letterboxd_url_formats_id() {
    assert_eq!(letterboxd_url(603), "https://letterboxd.com/tmdb/603");
    assert_eq!(letterboxd_url(0), "https://letterboxd.com/tmdb/0");
    assert_eq!(letterboxd_url(-12), "https://letterboxd.com/tmdb/-12");
}

#[test]
fn strip_marker_removes_bullets_and_numbers() {
    assert_eq!(WatchListPinnedMessage::strip_marker("  - Alien  "), "Alien");
    assert_eq!(WatchListPinnedMessage::strip_marker("* Heat"), "Heat");
    assert_eq!(WatchListPinnedMessage::strip_marker("+   Up"), "Up");
    assert_eq!(WatchListPinnedMessage::strip_marker("\u{2022} Jaws"), "Jaws");
    assert_eq!(WatchListPinnedMessage::strip_marker("\u{2013} Ran"), "Ran");
    assert_eq!(WatchListPinnedMessage::strip_marker("\u{2014} Ran"), "Ran");
    assert_eq!(WatchListPinnedMessage::strip_marker("12. Brazil"), "Brazil");
    assert_eq!(WatchListPinnedMessage::strip_marker("3) Brazil"), "Brazil");
    assert_eq!(WatchListPinnedMessage::strip_marker("4- Brazil"), "Brazil");
    assert_eq!(WatchListPinnedMessage::strip_marker("5.Brazil"), "Brazil");
    assert_eq!(WatchListPinnedMessage::strip_marker("6)Brazil"), "Brazil");
    assert_eq!(WatchListPinnedMessage::strip_marker("12345. Brazil"), "12345. Brazil");
    assert_eq!(WatchListPinnedMessage::strip_marker("1984"), "1984");
    assert_eq!(WatchListPinnedMessage::strip_marker("-Alien"), "-Alien");
    assert_eq!(WatchListPinnedMessage::strip_marker("   "), "");
    assert_eq!(WatchListPinnedMessage::strip_marker("1. 2. Alien"), "2. Alien");
}

#[test]
fn strip_marker_agrees_with_reference() {
    let samples = [
        "", " ", "-", "- ", "-  x", "* *", "+ + +", "\u{2022}x", "\u{2022} x ", "1.", "1. ", "1)x",
        "99) ", "9999. a", "00001. b", "12-c", "12- c", "1 . x", "\u{3000}- a\u{3000}", "\t7) b\t",
        "Ω. x", "７. fullwidth", "- \u{85}x", "12)", "12.)", "x - y",
    ];
    for s in samples {
        assert_eq!(WatchListPinnedMessage::strip_marker(s), reference_strip_marker(s), "input {:?}", s);
    }
}

#[test]
fn normalize_cleans_a_list() {
    let input = "- Alien\r\n* alien\n\n2. Heat (1995)\n10) Up\n12345. Big\n\u{2022}  Jaws\n  \n";
    assert_eq!(WatchListPinnedMessage::normalize(input), "Alien\nHeat (1995)\nUp\n12345. Big\nJaws\n");
    assert_eq!(WatchListPinnedMessage::normalize(""), "\n");
    assert_eq!(WatchListPinnedMessage::normalize("\n\n  \r\n"), "\n");
    assert_eq!(WatchListPinnedMessage::normalize("one\ntwo"), "one\ntwo\n");
}

#[test]
fn normalize_agrees_with_reference() {
    let samples = [
        "a\nb\nA\n", "x\r\ny\r", "\r\r\n", "1. a\n2. b\n3. A\n", "  - spaced  \n-spaced\n",
        "line without end", "\n\n\nlast", "é\nÉ\n", "MiXeD\nmixed\nMIXED", "- \n* \n+ \n",
        "\u{2028}x\u{2029}\ny", "tab\there\n", "1. 2. x\n2. x\n",
    ];
    for s in samples {
        assert_eq!(WatchListPinnedMessage::normalize(s), reference_normalize(s), "input {:?}", s);
    }
}

#[test]
fn normalize_has_no_duplicates_ignoring_case() {
    let out = WatchListPinnedMessage::normalize("Alien\nALIEN\nalien\n- Alien\nHeat\nheat\n");
    assert_eq!(out, "Alien\nHeat\n");
    let entries: Vec<&str> = out.lines().collect();
    for i in 0..entries.len() {
        for j in (i + 1)..entries.len() {
            assert!(!entries[i].eq_ignore_ascii_case(entries[j]));
        }
    }
}

#[test]
fn resubmitting_a_clean_list_is_a_fixed_point() {
    let clean = "Alien\nHeat (1995)\nThe Thing\n";
    assert_eq!(WatchListPinnedMessage::normalize(clean), clean);
    assert_eq!(WatchListPinnedMessage::normalize(&WatchListPinnedMessage::normalize("- a\n* b\n")), WatchListPinnedMessage::normalize("- a\n* b\n"));
}

#[test]
fn normalize_is_not_idempotent_on_nested_markers() {
    let once = WatchListPinnedMessage::normalize("1. 2. Alien\n");
    assert_eq!(once, "2. Alien\n");
    assert_eq!(WatchListPinnedMessage::normalize(&once), "Alien\n");
}

#[test]
fn truncate_bytes_keeps_whole_characters() {
    let v = chars_of("aé€😀b");
    assert_eq!(string_of(&truncate_bytes(&v, 0)), "");
    assert_eq!(string_of(&truncate_bytes(&v, 1)), "a");
    assert_eq!(string_of(&truncate_bytes(&v, 2)), "a");
    assert_eq!(string_of(&truncate_bytes(&v, 3)), "aé");
    assert_eq!(string_of(&truncate_bytes(&v, 6)), "aé€");
    assert_eq!(string_of(&truncate_bytes(&v, 10)), "aé€😀");
    assert_eq!(string_of(&truncate_bytes(&v, 100)), "aé€😀b");
    assert!(on_char_boundary(&v, 3));
    assert!(!on_char_boundary(&v, 2));
    assert!(on_char_boundary(&v, 11));
    assert!(on_char_boundary(&v, 50));
    assert!(!on_char_boundary(&v, 8));
}

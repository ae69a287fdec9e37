use kino::entry_parts::{EntryParts, EntryPartsError};
use regex::Regex;

struct Reference {
    name: String,
    year: Option<i64>,
    comment: Option<String>,
}

struct Regexes {
    entry: Regex,
    comment: Regex,
}

fn regexes() -> Regexes {
    Regexes {
        entry: Regex::new(r"^\s*(?<title>.+?)(?:\s+\(?(?<year>\d{4})\)?)?\s*$").unwrap(),
        comment: Regex::new(r"#[^#]*$").unwrap(),
    }
}

fn reference_entry_parts(rx: &Regexes, text: &str) -> Result<Reference, String> {
    let entry_regex = &rx.entry;
    let comment_regex = &rx.comment;
    let mut parts = Reference { name: String::new(), year: None, comment: None };
    let mut haystack = text.to_string();
    if let Some(mat) = comment_regex.find(text) {
        parts.comment = Some(mat.as_str().to_owned());
        haystack = comment_regex.replace(text, "").trim().to_string()
    }
    if let Some(caps) = entry_regex.captures(&haystack) {
        if let Some(mat) = caps.name("title") {
            parts.name = mat.as_str().to_owned();
        }
        if let Some(mat) = caps.name("year") {
            if let Ok(year) = mat.as_str().trim_matches(|c| c == '(' || c == ')').parse::<i64>() {
                parts.year = Some(year);
            }
        }
    }
    if parts.name.is_empty() {
        Err("Entry missing title".to_string())
    } else {
        Ok(parts)
    }
}

fn check_same(rx: &Regexes, text: &str) {
    let ours = EntryParts::new(text);
    let theirs = reference_entry_parts(rx, text);
    match (ours, theirs) {
        (Ok(a), Ok(b)) => {
            assert_eq!(a.name, b.name, "name of {:?}", text);
            assert_eq!(a.year, b.year, "year of {:?}", text);
            assert_eq!(a.comment, b.comment, "comment of {:?}", text);
        }
        (Err(e), Err(m)) => assert_eq!(e.message(), m, "error of {:?}", text),
        (a, b) => panic!("disagree on {:?}: ours ok = {}, reference ok = {}", text, a.is_ok(), b.is_ok()),
    }
}

#[test]
fn entry_with_year_in_parentheses() {
    let p = EntryParts::new("Heat (1995)").ok().unwrap();
    assert_eq!(p.name, "Heat");
    assert_eq!(p.year, Some(1995));
    assert_eq!(p.comment, None);
}

#[test]
fn entry_with_bare_year_and_comment() {
    let p = EntryParts::new("  The Thing 1982 # rewatch  ").ok().unwrap();
    assert_eq!(p.name, "The Thing");
    assert_eq!(p.year, Some(1982));
    assert_eq!(p.comment, Some("# rewatch  ".to_string()));
}

#[test]
fn entry_that_is_only_a_year() {
    let p = EntryParts::new("2001").ok().unwrap();
    assert_eq!(p.name, "2001");
    assert_eq!(p.year, None);
}

#[test]
fn entry_without_title_fails() {
    assert_eq!(EntryParts::new("").err(), Some(EntryPartsError::MissingTitle));
    assert_eq!(EntryParts::new("# only a comment").err(), Some(EntryPartsError::MissingTitle));
    assert_eq!(EntryParts::new("\n\n").err(), Some(EntryPartsError::MissingTitle));
    assert_eq!(EntryPartsError::MissingTitle.message(), "Entry missing title");
}

#[test]
fn entry_of_whitespace_takes_its_last_character() {
    let p = EntryParts::new(" \t ").ok().unwrap();
    assert_eq!(p.name, " ");
    assert_eq!(p.year, None);
}

#[test]
fn entry_with_non_ascii_digits_has_no_year() {
    let p = EntryParts::new("Film \u{662}\u{660}\u{662}\u{660}").ok().unwrap();
    assert_eq!(p.name, "Film");
    assert_eq!(p.year, None);
}

#[test]
fn entry_parts_agree_with_regex() {
    let samples = [
        "Heat (1995)", "Heat(1995)", "Heat 1995", "Heat 19955", "Heat (1995", "Heat 1995)",
        "Heat  ( 1995 )", "Heat ((1995))", "  Heat  ", "Heat\n1995", "Heat\nmore", "a\n\nb",
        "x # c # d", "#", "##", "a#b", "   # c", "1995", " 1995", "(1995)", "Blade Runner 2049 (2017)",
        "Film \u{662}\u{660}\u{662}\u{660}", "Film \u{ff11}\u{ff19}\u{ff19}\u{ff15}",
        "\u{3000}Tokyo Story\u{3000}(1953)\u{3000}", "\n", "\n \n", " \n", "\r", "a\r", "Film 1995\n",
        "Film 1995\n\n", "Film\n(2020)", "Film\n(2020)x", "Title\u{85}1999", "é 2000", "😀 (1999) # 🎬",
        "A (1999) (2000)", "A 12345 1999", "\t", "x", "  x  1  ",
    ];
    let rx = regexes();
    for s in samples {
        check_same(&rx, s);
    }
}

#[test]
fn entry_parts_agree_with_regex_on_generated_texts() {
    let pieces = ["a", " ", "\n", "(", ")", "1", "19", "2020", "#", "\u{662}", "\t", "é"];
    let rx = regexes();
    let mut count = 0;
    for a in pieces {
        for b in pieces {
            for c in pieces {
                let s = format!("{a}{b}{c}");
                check_same(&rx, &s);
                let t = format!("x {a}{b}{c}");
                check_same(&rx, &t);
                count += 1;
            }
        }
    }
    assert_eq!(count, 12 * 12 * 12);
}

use kino::pinned_message::{WatchListPinnedMessage, MESSAGE_LIMIT};

fn reference_render(entries: &[&str], updated_at: Option<i64>, updated_by: Option<i64>) -> String {
    let header = format!(
        "## Watch List\n-# {} {}\n\n",
        entries.len(),
        if entries.len() == 1 { "entry" } else { "entries" }
    );
    let mut footer = String::from("\n-# ");
    if let Some(by) = updated_by {
        footer.push_str(&format!("last updated by <@{0}> ", by));
    }
    if let Some(at) = updated_at {
        if at > 0 {
            footer.push_str(&format!("<t:{0}:R> ", at));
        }
    }
    footer.push_str("\u{2022} edit with `/watchlist edit`");
    if entries.is_empty() {
        return format!("{0}*the list is empty.*{1}", header, footer);
    }
    let budget = MESSAGE_LIMIT.saturating_sub(header.len() + footer.len() + 40);
    let mut body = String::new();
    let mut shown = 0_usize;
    for (idx, entry) in entries.iter().enumerate() {
        let line = format!("{}. {}\n", idx + 1, entry);
        if body.len() + line.len() > budget {
            break;
        }
        body.push_str(&line);
        shown += 1;
    }
    if shown < entries.len() {
        body.push_str(&format!("*\u{2026}and {} more*\n", entries.len() - shown));
    }
    format!("{}{}{}", header, body, footer)
}

fn render(entries: Vec<&str>, at: i64, by: i64) -> String {
    WatchListPinnedMessage::default().updated_at(at).updated_by(by).entries(entries).render_content()
}

#[test]
fn empty_list_message() {
    let text = WatchListPinnedMessage::default().updated_at(1700000000).updated_by(42).render_content();
    assert_eq!(
        text,
        "## Watch List\n-# 0 entries\n\n*the list is empty.*\n-# last updated by <@42> <t:1700000000:R> \u{2022} edit with `/watchlist edit`"
    );
}

#[test]
fn message_without_editor_or_time() {
    let text = WatchListPinnedMessage::default().render_content();
    assert_eq!(
        text,
        "## Watch List\n-# 0 entries\n\n*the list is empty.*\n-# \u{2022} edit with `/watchlist edit`"
    );
    let text = WatchListPinnedMessage::default().updated_at(0).entries(vec!["Up"]).render_content();
    assert_eq!(
        text,
        "## Watch List\n-# 1 entry\n\n1. Up\n\n-# \u{2022} edit with `/watchlist edit`"
    );
}

#[test]
fn list_message_numbers_entries() {
    let text = render(vec!["Alien", "Heat"], 100, 7);
    assert_eq!(
        text,
        "## Watch List\n-# 2 entries\n\n1. Alien\n2. Heat\n\n-# last updated by <@7> <t:100:R> \u{2022} edit with `/watchlist edit`"
    );
}

#[test]
fn long_list_is_cut_and_counted() {
    let names: Vec<String> = (0..300).map(|i| format!("Movie number {i:04} with a longish title")).collect();
    let refs: Vec<&str> = names.iter().map(|s| s.as_str()).collect();
    let text = render(refs.clone(), 1, 2);
    assert_eq!(text, reference_render(&refs, Some(1), Some(2)));
    assert!(text.len() <= MESSAGE_LIMIT);
    assert!(text.contains("more*\n"));
}

#[test]
fn one_huge_entry_is_not_shown() {
    let big = "x".repeat(5000);
    let text = render(vec![big.as_str()], 5, 6);
    assert_eq!(text, reference_render(&[big.as_str()], Some(5), Some(6)));
    assert!(text.contains("*\u{2026}and 1 more*\n"));
    assert!(text.len() <= MESSAGE_LIMIT);
}

#[test]
fn rendering_agrees_with_reference() {
    let samples: Vec<Vec<String>> = vec![
        vec![],
        vec!["é".repeat(700), "b".into()],
        (0..100).map(|i| "€".repeat(i)).collect(),
        vec!["a".repeat(1880)],
        vec!["a".repeat(1870), "b".into()],
    ];
    for s in samples {
        let refs: Vec<&str> = s.iter().map(|x| x.as_str()).collect();
        for (at, by) in [(0, 0), (-3, -9), (i64::MAX, i64::MIN)] {
            let ours = render(refs.clone(), at, by);
            assert_eq!(ours, reference_render(&refs, Some(at), Some(by)));
            assert!(ours.len() <= MESSAGE_LIMIT);
        }
    }
}

#[test]
fn edit_reply_mentions_and_warns() {
    let r = WatchListPinnedMessage::write_edit_reply(1, 2, 3, 4, "+Alien\n".to_string(), 5, 6, true);
    assert_eq!(
        r,
        "@here: <@4> updated the movie watch list in https://discord.com/channels/1/2/3\n```diff\n+Alien\n```\n-# heads up, someone else edited the list while this editor was open."
    );
    let r = WatchListPinnedMessage::write_edit_reply(1, 2, 3, 4, "-Heat\n".to_string(), 6, 6, false);
    assert_eq!(
        r,
        "<@4> updated the movie watch list in https://discord.com/channels/1/2/3\n```diff\n-Heat\n```"
    );
    let r = WatchListPinnedMessage::write_edit_reply(1, 2, 3, 4, String::new(), -1, 6, false);
    assert!(!r.contains("heads up"));
}

#[test]
fn edit_reply_is_cut_to_the_message_limit() {
    let changes = "+x\n".repeat(1000);
    let r = WatchListPinnedMessage::write_edit_reply(1, 2, 3, 4, changes.clone(), 1, 2, true);
    assert_eq!(r.len(), MESSAGE_LIMIT);
    let full = WatchListPinnedMessage::edit_reply_full(1, 2, 3, 4, &changes, 1, 2, true);
    assert_eq!(r, full[..MESSAGE_LIMIT]);
}

use vstd::prelude::*;
use crate::links::{message_link, message_link_spec};
use crate::text::{
    byte_len, byte_len_sat, bytes_prefix, chars_of, concat, decimal, fit_count,
    is_char_boundary_at, lemma_byte_len_concat, char_width, chars_within, starts_with, lemma_concat_take_step, lemma_fit_count_step,
    lemma_fit_count_stop, push_chars, push_i64, push_usize, string_of, string_views,
    truncate_bytes,
};

verus! {

/// Longest message Discord accepts, in bytes.
pub const MESSAGE_LIMIT: usize = 2000;

/// The pinned message that shows a channel's watch list.
#[derive(Debug)]
pub struct WatchListPinnedMessage {
    pub body: String,
    pub entries: Vec<String>,
    pub footer: String,
    pub header: String,
    pub updated_at: Option<i64>,
    pub updated_by: Option<i64>,
}

impl Default for WatchListPinnedMessage {
    fn default() -> (r: Self)
        ensures
            r.body@ == Seq::<char>::empty(),
            r.entries@.len() == 0,
            r.footer@ == Seq::<char>::empty(),
            r.header@ == Seq::<char>::empty(),
            r.updated_at is None,
            r.updated_by is None,
    {
        WatchListPinnedMessage {
            body: String::new(),
            entries: Vec::new(),
            footer: String::new(),
            header: String::new(),
            updated_at: None,
            updated_by: None,
        }
    }
}

// ---------------------------------------------------------------------------
// What the message says
// ---------------------------------------------------------------------------

/// `## Watch List`, then the number of entries.
pub open spec fn header_text(n: nat) -> Seq<char> {
    "## Watch List\n-# "@ + decimal(n as int) + " "@ + (if n == 1 {
        "entry"@
    } else {
        "entries"@
    }) + "\n\n"@
}

/// Who edited last and when (when known and after the epoch), then how to edit.
pub open spec fn footer_text(updated_by: Option<i64>, updated_at: Option<i64>) -> Seq<char> {
    "\n-# "@ + (match updated_by {
        Some(by) => "last updated by <@"@ + decimal(by as int) + "> "@,
        None => Seq::empty(),
    }) + (match updated_at {
        Some(at) => if at > 0 {
            "<t:"@ + decimal(at as int) + ":R> "@
        } else {
            Seq::empty()
        },
        None => Seq::empty(),
    }) + "\u{2022} edit with `/watchlist edit`"@
}

/// Entry `i` (counted from 0) as a numbered line.
pub open spec fn numbered_line(i: int, entry: Seq<char>) -> Seq<char> {
    decimal(i + 1) + ". "@ + entry + "\n"@
}

pub open spec fn numbered_lines(entries: Seq<Seq<char>>) -> Seq<Seq<char>> {
    Seq::new(entries.len(), |i: int| numbered_line(i, entries[i]))
}

/// Room for the numbered lines in a message with this header and footer.
pub open spec fn body_budget(header: Seq<char>, footer: Seq<char>) -> int {
    if byte_len(header) + byte_len(footer) + 40 >= MESSAGE_LIMIT {
        0
    } else {
        MESSAGE_LIMIT - (byte_len(header) + byte_len(footer) + 40)
    }
}

/// How many entries the body shows after `body` bytes already there.
pub open spec fn shown_count(entries: Seq<Seq<char>>, body: Seq<char>, budget: int) -> nat {
    fit_count(numbered_lines(entries), byte_len(body) as int, budget)
}

/// The line that says how many entries did not fit.
pub open spec fn more_line(hidden: nat) -> Seq<char> {
    "*\u{2026}and "@ + decimal(hidden as int) + " more*\n"@
}

/// `body` followed by as many numbered entries as fit the budget, then, when
/// some did not fit, how many were left out.
pub open spec fn body_text(entries: Seq<Seq<char>>, body: Seq<char>, budget: int) -> Seq<char> {
    let k = shown_count(entries, body, budget);
    body + concat(numbered_lines(entries).take(k as int)) + (if k < entries.len() {
        more_line((entries.len() - k) as nat)
    } else {
        Seq::empty()
    })
}

/// The whole message for these entries and editor, with `body` already in the body.
pub open spec fn content_text(
    entries: Seq<Seq<char>>,
    updated_by: Option<i64>,
    updated_at: Option<i64>,
    body: Seq<char>,
) -> Seq<char> {
    let h = header_text(entries.len());
    let f = footer_text(updated_by, updated_at);
    if entries.len() == 0 {
        h + "*the list is empty.*"@ + f
    } else {
        h + body_text(entries, body, body_budget(h, f)) + f
    }
}

impl WatchListPinnedMessage {
    pub open spec fn entry_texts(&self) -> Seq<Seq<char>> {
        string_views(self.entries@)
    }

    /// Replaces the entries.
    pub fn entries(self, entries: Vec<&str>) -> (r: Self)
        ensures
            r.entry_texts() == entries@.map_values(|e: &str| e@),
            r.body == self.body,
            r.footer == self.footer,
            r.header == self.header,
            r.updated_at == self.updated_at,
            r.updated_by == self.updated_by,
    {
        let mut owned: Vec<String> = Vec::new();
        let mut i: usize = 0;
        while i < entries.len()
            invariant
                i <= entries.len(),
                string_views(owned@) == entries@.map_values(|e: &str| e@).take(i as int),
            decreases entries.len() - i,
        {
            let e = entries[i].to_owned();
            let ghost before = owned@;
            owned.push(e);
            proof {
                let want = entries@.map_values(|e: &str| e@);
                assert(want[i as int] == entries@[i as int]@);
                assert(string_views(owned@) =~= string_views(before).push(e@));
                assert(want.take(i + 1) =~= want.take(i as int).push(want[i as int]));
            }
            i = i + 1;
        }
        assert(entries@.map_values(|e: &str| e@).take(i as int) =~= entries@.map_values(
            |e: &str| e@,
        ));
        WatchListPinnedMessage { entries: owned, ..self }
    }

    pub fn updated_at(self, updated_at: i64) -> (r: Self)
        ensures
            r.updated_at == Some(updated_at),
            r.body == self.body,
            r.entries == self.entries,
            r.footer == self.footer,
            r.header == self.header,
            r.updated_by == self.updated_by,
    {
        WatchListPinnedMessage { updated_at: Some(updated_at), ..self }
    }

    pub fn updated_by(self, updated_by: i64) -> (r: Self)
        ensures
            r.updated_by == Some(updated_by),
            r.body == self.body,
            r.entries == self.entries,
            r.footer == self.footer,
            r.header == self.header,
            r.updated_at == self.updated_at,
    {
        WatchListPinnedMessage { updated_by: Some(updated_by), ..self }
    }

    /// The message text.
    pub fn render_content(self) -> (r: String)
        ensures
            r@ == content_text(self.entry_texts(), self.updated_by, self.updated_at, self.body@),
    {
        let mut this = self;
        this.write_content()
    }

    fn write_header(&mut self)
        ensures
            final(self).header@ == header_text(old(self).entries@.len()),
            final(self).body == old(self).body,
            final(self).entries == old(self).entries,
            final(self).footer == old(self).footer,
            final(self).updated_at == old(self).updated_at,
            final(self).updated_by == old(self).updated_by,
    {
        let n = self.entries.len();
        let mut h = String::new();
        h.append("## Watch List\n-# ");
        push_usize(&mut h, n);
        h.append(" ");
        if n == 1 {
            h.append("entry");
        } else {
            h.append("entries");
        }
        h.append("\n\n");
        self.header = h;
    }

    fn write_footer(&mut self)
        ensures
            final(self).footer@ == footer_text(old(self).updated_by, old(self).updated_at),
            final(self).body == old(self).body,
            final(self).entries == old(self).entries,
            final(self).header == old(self).header,
            final(self).updated_at == old(self).updated_at,
            final(self).updated_by == old(self).updated_by,
    {
        let mut f = String::new();
        f.append("\n-# ");
        let ghost s0 = f@;
        match self.updated_by {
            Some(by) => {
                f.append("last updated by <@");
                push_i64(&mut f, by);
                f.append("> ");
            },
            None => {},
        }
        let ghost s1 = f@;
        match self.updated_at {
            Some(at) => {
                if at > 0 {
                    f.append("<t:");
                    push_i64(&mut f, at);
                    f.append(":R> ");
                }
            },
            None => {},
        }
        let ghost s2 = f@;
        f.append("\u{2022} edit with `/watchlist edit`");
        proof {
            let by_part = match self.updated_by {
                Some(by) => "last updated by <@"@ + decimal(by as int) + "> "@,
                None => Seq::<char>::empty(),
            };
            let at_part = match self.updated_at {
                Some(at) => if at > 0 {
                    "<t:"@ + decimal(at as int) + ":R> "@
                } else {
                    Seq::<char>::empty()
                },
                None => Seq::<char>::empty(),
            };
            assert(s1 =~= s0 + by_part);
            assert(s2 =~= s0 + by_part + at_part);
        }
        self.footer = f;
    }

    fn write_body(&mut self)
        ensures
            final(self).body@ == body_text(
                old(self).entry_texts(),
                old(self).body@,
                body_budget(old(self).header@, old(self).footer@),
            ),
            final(self).entries == old(self).entries,
            final(self).footer == old(self).footer,
            final(self).header == old(self).header,
            final(self).updated_at == old(self).updated_at,
            final(self).updated_by == old(self).updated_by,
    {
        let ghost es = self.entry_texts();
        let ghost pieces = numbered_lines(es);
        let ghost body0 = self.body@;
        let hv = chars_of(self.header.as_str());
        let fv = chars_of(self.footer.as_str());
        let hl = byte_len_sat(&hv);
        let fl = byte_len_sat(&fv);
        let budget: usize = if hl >= MESSAGE_LIMIT || fl >= MESSAGE_LIMIT - hl || 40
            >= MESSAGE_LIMIT - hl - fl {
            0
        } else {
            MESSAGE_LIMIT - (hl + fl + 40)
        };
        assert(budget == body_budget(self.header@, self.footer@));
        let bv = chars_of(self.body.as_str());
        let mut used = byte_len_sat(&bv);
        let ghost used0: int = byte_len(body0) as int;
        let mut shown: usize = 0;
        let n = self.entries.len();
        assert(concat(pieces.take(0)) =~= Seq::<char>::empty()) by {
            assert(pieces.take(0) =~= Seq::<Seq<char>>::empty());
        }
        while shown < n
            invariant
                n == self.entries.len(),
                self.entries == old(self).entries,
                self.footer == old(self).footer,
                self.header == old(self).header,
                self.updated_at == old(self).updated_at,
                self.updated_by == old(self).updated_by,
                es == self.entry_texts(),
                pieces == numbered_lines(es),
                budget <= MESSAGE_LIMIT,
                shown <= n,
                self.body@ == body0 + concat(pieces.take(shown as int)),
                used as int == if used0 + byte_len(concat(pieces.take(shown as int)))
                    <= usize::MAX {
                    (used0 + byte_len(concat(pieces.take(shown as int)))) as int
                } else {
                    usize::MAX as int
                },
                forall|j: int|
                    0 <= j < shown ==> used0 + byte_len(concat(#[trigger] pieces.take(j + 1)))
                        <= budget,
                shown > 0 ==> used0 + byte_len(concat(pieces.take(shown as int))) <= budget,
            ensures
                shown <= n,
                self.body@ == body0 + concat(pieces.take(shown as int)),
                forall|j: int|
                    0 <= j < shown ==> used0 + byte_len(concat(#[trigger] pieces.take(j + 1)))
                        <= budget,
                shown < n ==> used0 + byte_len(concat(pieces.take(shown as int))) + byte_len(
                    pieces[shown as int],
                ) > budget,
            decreases n - shown,
        {
            let mut line = String::new();
            push_usize(&mut line, shown + 1);
            line.append(". ");
            line.append(self.entries[shown].as_str());
            line.append("\n");
            assert(line@ =~= pieces[shown as int]);
            let lv = chars_of(line.as_str());
            let ll = byte_len_sat(&lv);
            proof {
                lemma_concat_take_step(pieces, shown as int);
                lemma_byte_len_concat(concat(pieces.take(shown as int)), pieces[shown as int]);
            }
            if used > budget || ll > budget - used {
                break;
            }
            push_chars(&mut self.body, &lv);
            used = used + ll;
            shown = shown + 1;
        }
        if shown < n {
            let mut more = String::new();
            more.append("*\u{2026}and ");
            push_usize(&mut more, n - shown);
            more.append(" more*\n");
            let mv = chars_of(more.as_str());
            push_chars(&mut self.body, &mv);
        }
        proof {
            lemma_fit_count_step(pieces, used0 as int, budget as int, shown as int);
            if shown < n {
                lemma_fit_count_stop(pieces, used0 as int, budget as int, shown as int);
            } else {
                assert(pieces.skip(shown as int).len() == 0);
            }
            assert(shown_count(es, body0, budget as int) == shown);
        }
    }

    fn write_content(&mut self) -> (r: String)
        ensures
            r@ == content_text(
                old(self).entry_texts(),
                old(self).updated_by,
                old(self).updated_at,
                old(self).body@,
            ),
    {
        self.write_header();
        self.write_footer();
        if self.entries.len() == 0 {
            let mut r = String::new();
            r.append(self.header.as_str());
            r.append("*the list is empty.*");
            r.append(self.footer.as_str());
            r
        } else {
            self.write_body();
            let mut r = String::new();
            r.append(self.header.as_str());
            r.append(self.body.as_str());
            r.append(self.footer.as_str());
            r
        }
    }
}

/// The announcement of an edit, before it is cut to `MESSAGE_LIMIT` bytes.
pub open spec fn edit_reply_text(
    guild_id: i64,
    channel_id: i64,
    message_id: i64,
    author_id: i64,
    changes: Seq<char>,
    base_revision: i64,
    latest_revision: i64,
    notify: bool,
) -> Seq<char> {
    (if notify {
        "@here: "@
    } else {
        Seq::empty()
    }) + "<@"@ + decimal(author_id as int) + "> updated the movie watch list in "@
        + message_link_spec(guild_id, channel_id, message_id) + "\n```diff\n"@ + changes + "```"@
        + (if base_revision >= 0 && base_revision != latest_revision {
        "\n-# heads up, someone else edited the list while this editor was open."@
    } else {
        Seq::empty()
    })
}

/// Whether the announcement of an edit opens with the `"@here: "` mention
/// depends on `notify` alone, whatever the revisions: the
/// announcement with it is the one without it behind that mention.
pub proof fn law_here_mention(
    guild_id: i64,
    channel_id: i64,
    message_id: i64,
    author_id: i64,
    changes: Seq<char>,
    base_revision: i64,
    latest_revision: i64,
)
    ensures
        edit_reply_text(
            guild_id,
            channel_id,
            message_id,
            author_id,
            changes,
            base_revision,
            latest_revision,
            true,
        ) == "@here: "@ + edit_reply_text(
            guild_id,
            channel_id,
            message_id,
            author_id,
            changes,
            base_revision,
            latest_revision,
            false,
        ),
        starts_with(
            edit_reply_text(
                guild_id,
                channel_id,
                message_id,
                author_id,
                changes,
                base_revision,
                latest_revision,
                true,
            ),
            "@here: "@,
        ),
        edit_reply_text(
            guild_id,
            channel_id,
            message_id,
            author_id,
            changes,
            base_revision,
            latest_revision,
            false,
        )[0] == '<',
        !starts_with(
            edit_reply_text(
                guild_id,
                channel_id,
                message_id,
                author_id,
                changes,
                base_revision,
                latest_revision,
                false,
            ),
            "@here: "@,
        ),
{
    reveal_strlit("@here: ");
    reveal_strlit("<@");
    let t = edit_reply_text(
        guild_id,
        channel_id,
        message_id,
        author_id,
        changes,
        base_revision,
        latest_revision,
        true,
    );
    let f = edit_reply_text(
        guild_id,
        channel_id,
        message_id,
        author_id,
        changes,
        base_revision,
        latest_revision,
        false,
    );
    let tail = decimal(author_id as int) + "> updated the movie watch list in "@
        + message_link_spec(guild_id, channel_id, message_id) + "\n```diff\n"@ + changes + "```"@
        + (if base_revision >= 0 && base_revision != latest_revision {
        "\n-# heads up, someone else edited the list while this editor was open."@
    } else {
        Seq::empty()
    });
    assert(f =~= "<@"@ + tail);
    assert(t =~= "@here: "@ + ("<@"@ + tail));
    assert(t.take(7) =~= "@here: "@);
    assert(f[0] == '<');
    assert(f.len() >= 7 ==> f.take(7)[0] == '<');
}

proof fn lemma_chars_within_len(s: Seq<char>, n: int)
    ensures
        chars_within(s, n) <= s.len(),
    decreases s.len(),
{
    if !(s.len() == 0 || char_width(s[0]) > n) {
        lemma_chars_within_len(s.drop_first(), n - char_width(s[0]));
    }
}

/// The announcement of an edit ends with the heads-up line exactly when the
/// editor was opened on a known revision (`base_revision >= 0`) and the list
/// has another revision now; otherwise it is the announcement of an edit
/// with no concurrent change.
pub proof fn law_heads_up(
    guild_id: i64,
    channel_id: i64,
    message_id: i64,
    author_id: i64,
    changes: Seq<char>,
    base_revision: i64,
    latest_revision: i64,
    notify: bool,
)
    ensures
        base_revision >= 0 && base_revision != latest_revision ==> edit_reply_text(
            guild_id,
            channel_id,
            message_id,
            author_id,
            changes,
            base_revision,
            latest_revision,
            notify,
        ) == edit_reply_text(
            guild_id,
            channel_id,
            message_id,
            author_id,
            changes,
            latest_revision,
            latest_revision,
            notify,
        ) + "\n-# heads up, someone else edited the list while this editor was open."@,
        !(base_revision >= 0 && base_revision != latest_revision) ==> edit_reply_text(
            guild_id,
            channel_id,
            message_id,
            author_id,
            changes,
            base_revision,
            latest_revision,
            notify,
        ) == edit_reply_text(
            guild_id,
            channel_id,
            message_id,
            author_id,
            changes,
            latest_revision,
            latest_revision,
            notify,
        ),
{
    let t = edit_reply_text(
        guild_id,
        channel_id,
        message_id,
        author_id,
        changes,
        base_revision,
        latest_revision,
        notify,
    );
    let plain = edit_reply_text(
        guild_id,
        channel_id,
        message_id,
        author_id,
        changes,
        latest_revision,
        latest_revision,
        notify,
    );
    if base_revision >= 0 && base_revision != latest_revision {
        assert(t =~= plain
            + "\n-# heads up, someone else edited the list while this editor was open."@);
    } else {
        assert(t =~= plain);
    }
}

/// A text whose first `j` characters are ASCII keeps at least those when cut
/// to `n >= j` bytes.
proof fn lemma_chars_within_ascii(s: Seq<char>, n: int, j: int)
    requires
        0 <= j <= s.len(),
        j <= n,
        forall|i: int| 0 <= i < j ==> char_width(#[trigger] s[i]) == 1,
    ensures
        chars_within(s, n) >= j,
    decreases j,
{
    if j > 0 {
        assert(char_width(s[0]) == 1);
        assert forall|i: int| 0 <= i < j - 1 implies char_width(#[trigger] s.drop_first()[i]) == 1 by {
            assert(s.drop_first()[i] == s[i + 1]);
        }
        lemma_chars_within_ascii(s.drop_first(), n - 1, j - 1);
    }
}

impl WatchListPinnedMessage {
    /// The full announcement of an edit, as `write_edit_reply` builds it before
    /// cutting it to `MESSAGE_LIMIT` bytes.
    pub fn edit_reply_full(
        guild_id: i64,
        channel_id: i64,
        message_id: i64,
        author_id: i64,
        changes: &str,
        base_revision: i64,
        latest_revision: i64,
        notify: bool,
    ) -> (r: String)
        ensures
            r@ == edit_reply_text(
                guild_id,
                channel_id,
                message_id,
                author_id,
                changes@,
                base_revision,
                latest_revision,
                notify,
            ),
            starts_with(r@, "@here: "@) == notify,
    {
        let mut r = String::new();
        if notify {
            r.append("@here: ");
        }
        let ghost s0 = r@;
        r.append("<@");
        push_i64(&mut r, author_id);
        r.append("> updated the movie watch list in ");
        let link = message_link(guild_id, channel_id, message_id);
        r.append(link.as_str());
        r.append("\n```diff\n");
        r.append(changes);
        r.append("```");
        if base_revision >= 0 && base_revision != latest_revision {
            r.append("\n-# heads up, someone else edited the list while this editor was open.");
        }
        proof {
            let n = if notify {
                "@here: "@
            } else {
                Seq::<char>::empty()
            };
            assert(s0 =~= n);
            law_here_mention(
                guild_id,
                channel_id,
                message_id,
                author_id,
                changes@,
                base_revision,
                latest_revision,
            );
        }
        r
    }

    /// The announcement of an edit: who edited which list, the diff, and a
    /// warning when the list changed while the editor was open; cut to
    /// `MESSAGE_LIMIT` bytes.
    pub fn write_edit_reply(
        guild_id: i64,
        channel_id: i64,
        message_id: i64,
        author_id: i64,
        changes: String,
        base_revision: i64,
        latest_revision: i64,
        notify: bool,
    ) -> (r: String)
        requires
            is_char_boundary_at(
                edit_reply_text(
                    guild_id,
                    channel_id,
                    message_id,
                    author_id,
                    changes@,
                    base_revision,
                    latest_revision,
                    notify,
                ),
                MESSAGE_LIMIT as int,
            ),
        ensures
            r@ == bytes_prefix(
                edit_reply_text(
                    guild_id,
                    channel_id,
                    message_id,
                    author_id,
                    changes@,
                    base_revision,
                    latest_revision,
                    notify,
                ),
                MESSAGE_LIMIT as int,
            ),
            byte_len(r@) <= MESSAGE_LIMIT,
            starts_with(r@, "@here: "@) == notify,
    {
        let full = Self::edit_reply_full(
            guild_id,
            channel_id,
            message_id,
            author_id,
            changes.as_str(),
            base_revision,
            latest_revision,
            notify,
        );
        let v = chars_of(full.as_str());
        let cut = truncate_bytes(&v, MESSAGE_LIMIT);
        proof {
            reveal_strlit("@here: ");
            let t = full@;
            law_here_mention(
                guild_id,
                channel_id,
                message_id,
                author_id,
                changes@,
                base_revision,
                latest_revision,
            );
            let k = chars_within(t, MESSAGE_LIMIT as int);
            assert(v@ == t);
            assert(cut@ == t.take(k as int));
            lemma_chars_within_len(t, MESSAGE_LIMIT as int);
            if notify {
                assert forall|i: int| 0 <= i < 7 implies char_width(#[trigger] t[i]) == 1 by {
                    assert(t.take(7)[i] == t[i]);
                }
                lemma_chars_within_ascii(t, MESSAGE_LIMIT as int, 7);
                assert(cut@.take(7) =~= t.take(7));
            } else if cut@.len() >= 7 {
                assert(cut@.take(7)[0] == cut@[0]);
                assert(cut@[0] == t[0]);
            }
        }
        string_of(&cut)
    }
}

} // verus!

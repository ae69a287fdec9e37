use vstd::prelude::*;
use crate::links::{message_link, message_link_spec};
use crate::models::Watchlist;
use crate::normalize::{join_entries, list_text, normalize_spec};
use crate::pinned_message::{content_text, WatchListPinnedMessage};
use crate::text::{
    byte_len, byte_len_sat, chars_of, lines, lines_of, string_of, string_views, trim, trim_range,
    vec_views,
};

verus! {

/// Longest text the edit dialog takes, in bytes.
pub const MODAL_INPUT_LIMIT: usize = 4000;

/// The lines that hold more than whitespace.
pub open spec fn nonblank(ls: Seq<Seq<char>>) -> Seq<Seq<char>>
    decreases ls.len(),
{
    if ls.len() == 0 {
        Seq::empty()
    } else {
        let prev = nonblank(ls.drop_last());
        if trim(ls.last()).len() == 0 {
            prev
        } else {
            prev.push(ls.last())
        }
    }
}

/// The entries of `old` that `new` does not hold, in order.
pub open spec fn removed_spec(old: Seq<Seq<char>>, new: Seq<Seq<char>>) -> Seq<Seq<char>>
    decreases old.len(),
{
    if old.len() == 0 {
        Seq::empty()
    } else {
        let prev = removed_spec(old.drop_last(), new);
        if new.contains(old.last()) {
            prev
        } else {
            prev.push(old.last())
        }
    }
}

/// The text the edit dialog opens with: the stored entries one per line.
pub fn editor_content(names: &Vec<String>) -> (r: String)
    ensures
        r@ == list_text(string_views(names@)),
{
    let mut vs: Vec<Vec<char>> = Vec::new();
    let mut i: usize = 0;
    while i < names.len()
        invariant
            i <= names.len(),
            vec_views(vs@) == string_views(names@).take(i as int),
        decreases names.len() - i,
    {
        let ghost before = vs@;
        let c = chars_of(names[i].as_str());
        vs.push(c);
        proof {
            assert(string_views(names@)[i as int] == names@[i as int]@);
            assert(vec_views(vs@) =~= vec_views(before).push(c@));
            assert(string_views(names@).take(i + 1) =~= string_views(names@).take(i as int).push(
                names@[i as int]@,
            ));
        }
        i = i + 1;
    }
    assert(string_views(names@).take(i as int) =~= string_views(names@));
    join_entries(&vs)
}

/// Whether a list text fits in the edit dialog.
pub fn fits_in_editor(content: &str) -> (r: bool)
    ensures
        r == (byte_len(content@) <= MODAL_INPUT_LIMIT),
{
    let v = chars_of(content);
    byte_len_sat(&v) <= MODAL_INPUT_LIMIT
}

/// The lines of `content` that hold more than whitespace.
pub fn nonblank_lines(content: &str) -> (r: Vec<String>)
    ensures
        string_views(r@) == nonblank(lines(content@)),
{
    let ls = lines_of(&chars_of(content));
    let ghost lv = vec_views(ls@);
    let mut r: Vec<String> = Vec::new();
    let mut i: usize = 0;
    while i < ls.len()
        invariant
            i <= ls.len(),
            lv == vec_views(ls@),
            string_views(r@) == nonblank(lv.take(i as int)),
        decreases ls.len() - i,
    {
        proof {
            assert(lv.take(i + 1).drop_last() =~= lv.take(i as int));
            assert(lv.take(i + 1).last() == ls@[i as int]@);
        }
        let (a, b) = trim_range(&ls[i], 0, ls[i].len());
        assert(ls@[i as int]@.subrange(0, ls@[i as int]@.len() as int) =~= ls@[i as int]@);
        if a < b {
            let ghost before = r@;
            r.push(string_of(&ls[i]));
            assert(string_views(r@) =~= string_views(before).push(ls@[i as int]@));
        }
        i = i + 1;
    }
    assert(lv.take(i as int) =~= lv);
    r
}

fn contains_string(v: &Vec<String>, s: &String) -> (r: bool)
    ensures
        r == string_views(v@).contains(s@),
{
    let mut i: usize = 0;
    while i < v.len()
        invariant
            i <= v.len(),
            forall|j: int| 0 <= j < i ==> string_views(v@)[j] != s@,
        decreases v.len() - i,
    {
        if v[i] == *s {
            assert(string_views(v@)[i as int] == s@);
            return true;
        }
        i = i + 1;
    }
    false
}

/// The entries of `old` that `new` does not hold.
pub fn removed_entries(old: &Vec<String>, new: &Vec<String>) -> (r: Vec<String>)
    ensures
        string_views(r@) == removed_spec(string_views(old@), string_views(new@)),
{
    let ghost ov = string_views(old@);
    let mut r: Vec<String> = Vec::new();
    let mut i: usize = 0;
    while i < old.len()
        invariant
            i <= old.len(),
            ov == string_views(old@),
            string_views(r@) == removed_spec(ov.take(i as int), string_views(new@)),
        decreases old.len() - i,
    {
        proof {
            assert(ov.take(i + 1).drop_last() =~= ov.take(i as int));
            assert(ov.take(i + 1).last() == old@[i as int]@);
        }
        if !contains_string(new, &old[i]) {
            let ghost before = r@;
            r.push(old[i].clone());
            assert(string_views(r@) =~= string_views(before).push(old@[i as int]@));
        }
        i = i + 1;
    }
    assert(ov.take(i as int) =~= ov);
    r
}

/// Whether to mention everyone: yes unless told otherwise.
pub fn notify_or_default(notify: Option<bool>) -> (r: bool)
    ensures
        r == match notify {
            Some(n) => n,
            None => true,
        },
{
    match notify {
        Some(n) => n,
        None => true,
    }
}

/// What an edit changes.
pub enum EditPlan {
    /// The normalized text equals the stored one.
    Unchanged,
    Changed { new_content: String, new_entries: Vec<String>, removed: Vec<String> },
}

/// The decision on an edit: the submitted text normalized; nothing to do when
/// it equals the text the editor opened with; otherwise the new entries in
/// order and the old entries that are gone.
pub fn plan_edit(old_content: &str, submitted: &str) -> (r: EditPlan)
    ensures
        match r {
            EditPlan::Unchanged => normalize_spec(submitted@) == old_content@,
            EditPlan::Changed { new_content, new_entries, removed } => {
                &&& normalize_spec(submitted@) != old_content@
                &&& new_content@ == normalize_spec(submitted@)
                &&& string_views(new_entries@) == nonblank(lines(new_content@))
                &&& string_views(removed@) == removed_spec(
                    nonblank(lines(old_content@)),
                    nonblank(lines(new_content@)),
                )
            },
        },
{
    let new_content = WatchListPinnedMessage::normalize(submitted);
    let old = String::from_str(old_content);
    if new_content == old {
        return EditPlan::Unchanged;
    }
    let old_entries = nonblank_lines(old_content);
    let new_entries = nonblank_lines(new_content.as_str());
    let removed = removed_entries(&old_entries, &new_entries);
    EditPlan::Changed { new_content, new_entries, removed }
}

/// The pinned message for a list with the given text.
pub fn pinned_content(list: &Watchlist, content: &str) -> (r: String)
    ensures
        r@ == content_text(
            nonblank(lines(content@)),
            Some(list.author_id),
            Some(list.updated_at),
            Seq::empty(),
        ),
{
    let entries = nonblank_lines(content);
    let msg = WatchListPinnedMessage {
        body: String::new(),
        entries,
        footer: String::new(),
        header: String::new(),
        updated_at: Some(list.updated_at),
        updated_by: Some(list.author_id),
    };
    msg.render_content()
}

/// The pinned message of a new, empty list.
pub fn initial_content(now: i64, author_id: i64) -> (r: String)
    ensures
        r@ == content_text(Seq::empty(), Some(author_id), Some(now), Seq::empty()),
{
    let msg = WatchListPinnedMessage::default().updated_at(now).updated_by(author_id);
    assert(msg.entry_texts() =~= Seq::<Seq<char>>::empty());
    msg.render_content()
}

/// The answer when a channel already has a list.
pub fn list_exists_reply(list: &Watchlist) -> (r: String)
    ensures
        r@ == "a list already exists for this channel: "@ + message_link_spec(
            list.guild_id,
            list.channel_id,
            list.message_id,
        ) + "."@,
{
    let mut r = String::new();
    r.append("a list already exists for this channel: ");
    let link = message_link(list.guild_id, list.channel_id, list.message_id);
    r.append(link.as_str());
    r.append(".");
    r
}

/// Who may set up a list: members allowed to manage messages, and administrators.
pub fn may_set_up(permissions: Option<(bool, bool)>) -> (r: bool)
    ensures
        r == match permissions {
            Some((manage_messages, administrator)) => manage_messages || administrator,
            None => false,
        },
{
    match permissions {
        Some((manage_messages, administrator)) => manage_messages || administrator,
        None => false,
    }
}

/// The buttons of the clear confirmation.
#[derive(Debug, PartialEq, Eq, Clone, Copy)]
pub enum ClearChoice {
    Confirm,
    Cancel,
    Other,
}

/// Which button a component id names.
pub fn clear_choice(custom_id: &str) -> (r: ClearChoice)
    ensures
        r == if custom_id@ == "confirm_yes"@ {
            ClearChoice::Confirm
        } else if custom_id@ == "confirm_no"@ {
            ClearChoice::Cancel
        } else {
            ClearChoice::Other
        },
{
    let id = String::from_str(custom_id);
    if id == String::from_str("confirm_yes") {
        ClearChoice::Confirm
    } else if id == String::from_str("confirm_no") {
        ClearChoice::Cancel
    } else {
        ClearChoice::Other
    }
}

} // verus!

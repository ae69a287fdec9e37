use vstd::prelude::*;
use crate::text::{
    byte_len, byte_len_wide, chars_of, concat, decimal, fit_count, has_prefix_at,
    lemma_byte_len_concat, lemma_concat_take_step, lemma_fit_count_step, lemma_fit_count_stop,
    lemma_fit_count_bound, lemma_first_newline, lemma_first_newline_char, first_newline, strip_cr,
    lines, lines_of, push_chars, push_usize, starts_with, vec_views,
};

verus! {

/// The unified diff that `diffy` makes of two texts, as a `diffy::PatchFormatter`
/// lays it out (with or without its "No newline at end of file" notes).
pub uninterp spec fn formatted_patch(
    original: Seq<char>,
    modified: Seq<char>,
    missing_newline_message: bool,
) -> Seq<char>;

/// The file header that `diffy::create_patch` gives every patch: its default
/// file names, `original` and `modified`.
pub open spec fn patch_header() -> Seq<char> {
    "--- original\n+++ modified\n"@
}

/// Calls `diffy::create_patch(original, modified)` and renders the patch with
/// `diffy::PatchFormatter::new().missing_newline_message(..).fmt_patch(..)`.
/// Claimed: the text depends on the two texts and the flag alone; it starts
/// with the `--- original` / `+++ modified` header; two equal texts give the
/// header alone, and two different texts give at least one hunk, whose
/// `@@ -` line follows the header (a patch that applied to `original` gives
/// `modified`, which no patch without hunks does for two different texts).
/// Nothing more of the layout of the hunks is claimed.
#[verifier::external_body]
fn unified_diff(original: &str, modified: &str, missing_newline_message: bool) -> (r: String)
    ensures
        r@ == formatted_patch(original@, modified@, missing_newline_message),
        original@ == modified@ ==> r@ == patch_header(),
        original@ != modified@ ==> starts_with(r@, patch_header() + "@@ -"@),
{
    let patch = diffy::create_patch(original, modified);
    let formatter = diffy::PatchFormatter::new().missing_newline_message(missing_newline_message);
    let text = formatter.fmt_patch(&patch).to_string();
    text
}

/// The lines of a diff without its `---` and `+++` file header lines.
pub open spec fn change_lines(ls: Seq<Seq<char>>) -> Seq<Seq<char>>
    decreases ls.len(),
{
    if ls.len() == 0 {
        Seq::empty()
    } else {
        let prev = change_lines(ls.drop_last());
        if starts_with(ls.last(), "---"@) || starts_with(ls.last(), "+++"@) {
            prev
        } else {
            prev.push(ls.last())
        }
    }
}

/// Each line with its `'\n'`.
pub open spec fn with_newlines(ls: Seq<Seq<char>>) -> Seq<Seq<char>> {
    Seq::new(ls.len(), |i: int| ls[i].push('\n'))
}

/// The note that ends a cut diff.
pub open spec fn more_diff_line(hidden: nat) -> Seq<char> {
    "\u{2026} "@ + decimal(hidden as int) + " more diff lines\n"@
}

/// The change lines of `formatted`, each ended by `'\n'`, as many as fit in
/// `max_body` bytes from the first on; then, when some did not fit, how many.
pub open spec fn patch_body_spec(formatted: Seq<char>, max_body: int) -> Seq<char> {
    let ps = with_newlines(change_lines(lines(formatted)));
    let k = fit_count(ps, 0, max_body);
    concat(ps.take(k as int)) + (if k < ps.len() {
        more_diff_line((ps.len() - k) as nat)
    } else {
        Seq::empty()
    })
}

fn is_header_line(l: &Vec<char>) -> (r: bool)
    ensures
        r == (starts_with(l@, "---"@) || starts_with(l@, "+++"@)),
{
    proof {
        reveal_strlit("---");
        reveal_strlit("+++");
    }
    let dashes = vec!['-', '-', '-'];
    let pluses = vec!['+', '+', '+'];
    assert(dashes@ =~= "---"@);
    assert(pluses@ =~= "+++"@);
    let a = has_prefix_at(l, 0, l.len(), &dashes);
    let b = has_prefix_at(l, 0, l.len(), &pluses);
    assert(l@.subrange(0, l.len() as int) =~= l@);
    a || b
}

/// The body of a diff message made of a formatted diff.
pub fn patch_body(formatted: &str, max_body: usize) -> (r: String)
    ensures
        r@ == patch_body_spec(formatted@, max_body as int),
{
    let all = lines_of(&chars_of(formatted));
    let ghost lv = vec_views(all@);
    let mut kept: Vec<Vec<char>> = Vec::new();
    let mut i: usize = 0;
    while i < all.len()
        invariant
            i <= all.len(),
            lv == vec_views(all@),
            vec_views(kept@) == change_lines(lv.take(i as int)),
        decreases all.len() - i,
    {
        proof {
            assert(lv.take(i + 1).drop_last() =~= lv.take(i as int));
            assert(lv.take(i + 1).last() == all@[i as int]@);
        }
        if !is_header_line(&all[i]) {
            let ghost before = kept@;
            kept.push(all[i].clone());
            assert(vec_views(kept@) =~= vec_views(before).push(all@[i as int]@));
        }
        i = i + 1;
    }
    assert(lv.take(i as int) =~= lv);
    let ghost cl = vec_views(kept@);
    let ghost ps = with_newlines(cl);
    let n = kept.len();
    let mut body = String::new();
    let mut used: u128 = 0;
    let mut shown: usize = 0;
    assert(concat(ps.take(0)) =~= Seq::<char>::empty()) by {
        assert(ps.take(0) =~= Seq::<Seq<char>>::empty());
    }
    while shown < n
        invariant
            n == kept.len(),
            cl == vec_views(kept@),
            ps == with_newlines(cl),
            shown <= n,
            used <= max_body,
            body@ == concat(ps.take(shown as int)),
            used == byte_len(concat(ps.take(shown as int))),
            forall|j: int|
                0 <= j < shown ==> 0 + byte_len(concat(#[trigger] ps.take(j + 1))) <= max_body,
        ensures
            shown <= n,
            body@ == concat(ps.take(shown as int)),
            forall|j: int|
                0 <= j < shown ==> 0 + byte_len(concat(#[trigger] ps.take(j + 1))) <= max_body,
            shown < n ==> 0 + byte_len(concat(ps.take(shown as int))) + byte_len(ps[shown as int])
                > max_body,
        decreases n - shown,
    {
        let mut line = kept[shown].clone();
        line.push('\n');
        assert(line@ =~= ps[shown as int]);
        let ll = byte_len_wide(&line);
        proof {
            lemma_concat_take_step(ps, shown as int);
            lemma_byte_len_concat(concat(ps.take(shown as int)), ps[shown as int]);
        }
        if ll > max_body as u128 - used {
            break;
        }
        push_chars(&mut body, &line);
        used = used + ll;
        shown = shown + 1;
    }
    if shown < n {
        let mut more = String::new();
        more.append("\u{2026} ");
        push_usize(&mut more, n - shown);
        more.append(" more diff lines\n");
        body.append(more.as_str());
    }
    proof {
        lemma_fit_count_step(ps, 0, max_body as int, shown as int);
        if shown < n {
            lemma_fit_count_stop(ps, 0, max_body as int, shown as int);
        } else {
            assert(ps.skip(shown as int).len() == 0);
        }
        assert(fit_count(ps, 0, max_body as int) == shown);
    }
    body
}

/// `lines` takes a first line that a `'\n'` ends off the front.
proof fn lemma_lines_front(a: Seq<char>, rest: Seq<char>)
    requires
        forall|i: int| 0 <= i < a.len() ==> #[trigger] a[i] != '\n',
    ensures
        lines(a + seq!['\n'] + rest) == seq![strip_cr(a)] + lines(rest),
{
    let s = a + seq!['\n'] + rest;
    assert forall|i: int| 0 <= i < a.len() implies #[trigger] s[i] != '\n' by {
        assert(s[i] == a[i]);
    }
    assert(s[a.len() as int] == '\n');
    lemma_first_newline_char(s, a.len() as int);
    assert(s.take(a.len() as int) =~= a);
    assert(s.skip(a.len() + 1 as int) =~= rest);
}

/// The header lines of a diff are dropped from its change lines.
proof fn lemma_change_lines_after_header(hs: Seq<Seq<char>>, ls: Seq<Seq<char>>)
    requires
        forall|i: int|
            0 <= i < hs.len() ==> starts_with(#[trigger] hs[i], "---"@) || starts_with(
                hs[i],
                "+++"@,
            ),
    ensures
        change_lines(hs + ls) == change_lines(ls),
    decreases hs.len() + ls.len(),
{
    if ls.len() == 0 {
        assert(hs + ls =~= hs);
        if hs.len() > 0 {
            lemma_change_lines_after_header(hs.drop_last(), ls);
            assert(hs.drop_last() + ls =~= hs.drop_last());
        }
    } else {
        lemma_change_lines_after_header(hs, ls.drop_last());
        assert((hs + ls).drop_last() =~= hs + ls.drop_last());
    }
}

/// A line that starts with neither `-` nor `+` is a change line.
proof fn lemma_change_lines_nonempty(ls: Seq<Seq<char>>)
    requires
        ls.len() > 0,
        ls[0].len() > 0,
        ls[0][0] != '-',
        ls[0][0] != '+',
    ensures
        change_lines(ls).len() > 0,
    decreases ls.len(),
{
    reveal_strlit("---");
    reveal_strlit("+++");
    if ls.len() == 1 {
        if starts_with(ls.last(), "---"@) {
            assert(ls.last().take(3)[0] == ls.last()[0]);
        }
        if starts_with(ls.last(), "+++"@) {
            assert(ls.last().take(3)[0] == ls.last()[0]);
        }
    } else {
        lemma_change_lines_nonempty(ls.drop_last());
    }
}

/// The change lines of a formatted diff: none when the texts are equal, some
/// when they differ.
proof fn lemma_header_change_lines(formatted: Seq<char>, same: bool)
    requires
        same ==> formatted == patch_header(),
        !same ==> starts_with(formatted, patch_header() + "@@ -"@),
    ensures
        (change_lines(lines(formatted)).len() == 0) == same,
{
    reveal_strlit("--- original\n+++ modified\n");
    reveal_strlit("--- original");
    reveal_strlit("+++ modified");
    reveal_strlit("---");
    reveal_strlit("+++");
    reveal_strlit("@@ -");
    let h1 = "--- original"@;
    let h2 = "+++ modified"@;
    let h = patch_header();
    let rest = formatted.skip(h.len() as int);
    assert(h =~= h1 + seq!['\n'] + (h2 + seq!['\n']));
    if !same {
        let f30 = formatted.take(h.len() + 4 as int);
        assert(f30 == h + "@@ -"@);
        assert(formatted.take(h.len() as int) =~= f30.take(h.len() as int));
        assert(f30.take(h.len() as int) =~= h);
    }
    assert(formatted.take(h.len() as int) =~= h);
    assert(formatted =~= h + rest);
    assert(formatted =~= h1 + seq!['\n'] + (h2 + seq!['\n'] + rest));
    lemma_lines_front(h1, h2 + seq!['\n'] + rest);
    lemma_lines_front(h2, rest);
    assert(strip_cr(h1) == h1);
    assert(strip_cr(h2) == h2);
    let hs = seq![h1, h2];
    assert(lines(formatted) =~= hs + lines(rest));
    assert(h1.take(3) =~= "---"@);
    assert(h2.take(3) =~= "+++"@);
    assert forall|i: int|
        0 <= i < hs.len() implies starts_with(#[trigger] hs[i], "---"@) || starts_with(
        hs[i],
        "+++"@,
    ) by {
        if i == 0 {
            assert(hs[i] == h1);
        } else {
            assert(hs[i] == h2);
        }
    }
    lemma_change_lines_after_header(hs, lines(rest));
    if same {
        assert(rest.len() == 0);
    } else {
        assert(rest[0] == '@') by {
            assert(formatted.take(h.len() + 4 as int)[h.len() as int] == (h + "@@ -"@)[h.len() as int]);
        }
        let e = first_newline(rest);
        lemma_first_newline(rest);
        let l0 = lines(rest)[0];
        if e < rest.len() {
            assert(e > 0);
            assert(rest.take(e as int)[0] == '@');
            assert(l0[0] == '@');
        } else {
            assert(l0 == rest);
        }
        lemma_change_lines_nonempty(lines(rest));
    }
}

/// A diff body is empty exactly when the diff has no change lines.
proof fn lemma_patch_body_empty(formatted: Seq<char>, max_body: int)
    ensures
        (patch_body_spec(formatted, max_body).len() == 0) == (change_lines(lines(formatted)).len()
            == 0),
{
    let ps = with_newlines(change_lines(lines(formatted)));
    let k = fit_count(ps, 0, max_body);
    lemma_fit_count_bound(ps, 0, max_body);
    reveal_strlit("\u{2026} ");
    if ps.len() == 0 {
        assert(ps.take(0) =~= Seq::<Seq<char>>::empty());
    } else if k < ps.len() {
        assert(more_diff_line((ps.len() - k) as nat).len() > 0);
    } else {
        lemma_concat_take_step(ps, k - 1);
        assert(ps.take(k as int - 1 + 1) == ps.take(k as int));
        assert(ps[k - 1].len() > 0);
    }
}

/// A diff of two versions of a list for a message: the changed lines and
/// their context, without the file header, cut to about `max_body` bytes.
pub fn create_patch(old: &str, new: &str, max_body: usize) -> (r: String)
    ensures
        r@ == patch_body_spec(formatted_patch(old@, new@, false), max_body as int),
        (r@.len() == 0) == (old@ == new@),
{
    let formatted = unified_diff(old, new, false);
    proof {
        lemma_header_change_lines(formatted@, old@ == new@);
        lemma_patch_body_empty(formatted@, max_body as int);
    }
    patch_body(formatted.as_str(), max_body)
}

} // verus!

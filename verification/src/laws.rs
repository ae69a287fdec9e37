use vstd::prelude::*;
use crate::normalize::{
    bullet_markers, first_prefix, lemma_digit_prefix_len_at, lemma_first_prefix_found,
    number_separators, collect_entries, contains_ignoring_case, join_newline, list_text, normalize_spec,
    normalized_entries, remove_cr, strip_marker_spec,
};
use crate::text::{
    digit_value, eq_ignore_ascii_case, first_newline, is_ascii_digit_char, is_ws,
    lemma_first_newline, lemma_first_newline_char, lemma_ws_prefix_len, lemma_ws_prefix_len_char,
    lemma_ws_suffix_len, lines, starts_with, strip_cr, trim, trim_start, ws_prefix_len,
    ws_suffix_len,
};
use crate::watchlist::{nonblank, removed_spec};
use crate::entry_parts::{
    comment_of, entry_haystack, entry_match, first_title_end, is_decimal_digit, last_hash,
    last_non_newline, title_may_end, ws_run_end, year_group_at, year_value,
};
use crate::diff::{change_lines, more_diff_line, patch_body_spec, with_newlines};
use crate::pinned_message::{
    body_budget, body_text, content_text, footer_text, header_text, more_line, numbered_lines,
    shown_count, MESSAGE_LIMIT,
};
use crate::text::{
    byte_len, concat, decimal, fit_count, lemma_byte_len_bounds, lemma_byte_len_concat,
    lemma_decimal_i64, lemma_fit_count_bound, lemma_nat_digits_ascii, lemma_nat_digits_len,
    pow10,
};

verus! {

// ---------------------------------------------------------------------------
// Shapes of entries
// ---------------------------------------------------------------------------

/// `s` holds neither '\n' nor '\r'.
pub open spec fn single_line(s: Seq<char>) -> bool {
    forall|i: int| 0 <= i < s.len() ==> #[trigger] s[i] != '\n' && s[i] != '\r'
}

/// `s` is not empty and neither starts nor ends with whitespace.
pub open spec fn trimmed_nonempty(s: Seq<char>) -> bool {
    s.len() > 0 && !is_ws(s[0]) && !is_ws(s.last())
}

/// No two entries are equal up to ASCII case.
pub open spec fn distinct_ignoring_case(es: Seq<Seq<char>>) -> bool {
    forall|i: int, j: int|
        0 <= i < j < es.len() ==> !eq_ignore_ascii_case(#[trigger] es[i], #[trigger] es[j])
}

// ---------------------------------------------------------------------------
// Helpers
// ---------------------------------------------------------------------------

proof fn lemma_remove_cr_no_cr(s: Seq<char>)
    ensures
        forall|i: int| 0 <= i < remove_cr(s).len() ==> #[trigger] remove_cr(s)[i] != '\r',
    decreases s.len(),
{
    if s.len() > 0 {
        lemma_remove_cr_no_cr(s.drop_last());
        let p = remove_cr(s.drop_last());
        if s.last() != '\r' {
            assert forall|i: int| 0 <= i < p.push(s.last()).len() implies #[trigger] p.push(
                s.last(),
            )[i] != '\r' by {
                if i < p.len() {
                    assert(p.push(s.last())[i] == p[i]);
                }
            }
        }
    }
}

proof fn lemma_remove_cr_noop(s: Seq<char>)
    requires
        forall|i: int| 0 <= i < s.len() ==> #[trigger] s[i] != '\r',
    ensures
        remove_cr(s) == s,
    decreases s.len(),
{
    if s.len() > 0 {
        lemma_remove_cr_noop(s.drop_last());
        assert(s.drop_last().push(s.last()) =~= s);
    }
}

/// Every line holds no '\n', and no '\r' when the text holds none.
proof fn lemma_lines_single(s: Seq<char>)
    requires
        forall|i: int| 0 <= i < s.len() ==> #[trigger] s[i] != '\r',
    ensures
        forall|k: int| 0 <= k < lines(s).len() ==> single_line(#[trigger] lines(s)[k]),
    decreases s.len(),
{
    if s.len() > 0 {
        let e = first_newline(s);
        lemma_first_newline(s);
        if e < s.len() {
            let rest = s.skip(e + 1 as int);
            assert forall|i: int| 0 <= i < rest.len() implies #[trigger] rest[i] != '\r' by {
                assert(rest[i] == s[e + 1 + i]);
            }
            lemma_lines_single(rest);
            let first = strip_cr(s.take(e as int));
            assert(single_line(first)) by {
                assert forall|i: int| 0 <= i < first.len() implies #[trigger] first[i] != '\n'
                    && first[i] != '\r' by {
                    assert(first[i] == s[i]);
                }
            }
            assert forall|k: int| 0 <= k < lines(s).len() implies single_line(
                #[trigger] lines(s)[k],
            ) by {
                if k > 0 {
                    assert(lines(s)[k] == lines(rest)[k - 1]);
                }
            }
        } else {
            assert(lines(s) == seq![s]);
            assert(single_line(s));
        }
    }
}

/// `trim(s)` is a piece of `s` with no whitespace at either end.
proof fn lemma_trim_piece(s: Seq<char>)
    ensures
        exists|a: int, b: int| 0 <= a <= b <= s.len() && trim(s) == s.subrange(a, b),
        trim(s).len() > 0 ==> trimmed_nonempty(trim(s)),
{
    let ts = trim_start(s);
    lemma_ws_prefix_len(s);
    lemma_ws_suffix_len(ts);
    let a = ws_prefix_len(s) as int;
    let b = a + ts.len() - ws_suffix_len(ts);
    assert(trim(s) =~= s.subrange(a, b));
    if trim(s).len() > 0 {
        assert(trim(s)[0] == ts[0]);
        assert(trim(s).last() == ts[ts.len() - ws_suffix_len(ts) - 1]);
    }
}

/// Dropping whitespace from the front of the end piece of a trimmed text
/// leaves a piece with no whitespace at either end.
proof fn lemma_trim_start_suffix(t: Seq<char>, k: int)
    requires
        0 <= k <= t.len(),
        t.len() > 0 ==> !is_ws(t.last()),
    ensures
        exists|a: int|
            k <= a <= t.len() && trim_start(t.skip(k)) == #[trigger] t.subrange(a, t.len() as int),
        trim_start(t.skip(k)).len() > 0 ==> trimmed_nonempty(trim_start(t.skip(k))),
{
    let r = t.skip(k);
    lemma_ws_prefix_len(r);
    let a = k + ws_prefix_len(r);
    assert(trim_start(r) =~= t.subrange(a, t.len() as int));
    if trim_start(r).len() > 0 {
        assert(trim_start(r)[0] == r[ws_prefix_len(r) as int]);
        assert(trim_start(r).last() == t.last());
    }
}

/// The entry of a line is a piece of the line with no whitespace at either end.
pub proof fn lemma_strip_marker_piece(l: Seq<char>)
    ensures
        exists|a: int, b: int| 0 <= a <= b <= l.len() && strip_marker_spec(l) == l.subrange(a, b),
        strip_marker_spec(l).len() > 0 ==> trimmed_nonempty(strip_marker_spec(l)),
{
    lemma_trim_piece(l);
    let t = trim(l);
    let (a0, b0) = choose|a: int, b: int| 0 <= a <= b <= l.len() && trim(l) == l.subrange(a, b);
    let k = crate::normalize::first_prefix(t, crate::normalize::bullet_markers());
    crate::normalize::lemma_first_prefix_found(t, crate::normalize::bullet_markers());
    if k < crate::normalize::bullet_markers().len() {
        let m = crate::normalize::bullet_markers()[k as int].len() as int;
        lemma_trim_start_suffix(t, m);
        let a = choose|a: int|
            m <= a <= t.len() && trim_start(t.skip(m)) == #[trigger] t.subrange(a, t.len() as int);
        assert(strip_marker_spec(l) =~= l.subrange(a0 + a, b0));
    } else {
        let d = crate::normalize::digit_prefix_len(t);
        if 1 <= d <= 4 {
            lemma_digit_prefix_bound(t);
            let rest = t.skip(d as int);
            let j = crate::normalize::first_prefix(rest, crate::normalize::number_separators());
            crate::normalize::lemma_first_prefix_found(rest, crate::normalize::number_separators());
            if j < crate::normalize::number_separators().len() {
                let m = crate::normalize::number_separators()[j as int].len() as int;
                assert(rest.skip(m) =~= t.skip(d + m));
                lemma_trim_start_suffix(t, d + m);
                let a = choose|a: int|
                    d + m <= a <= t.len() && trim_start(t.skip(d + m)) == #[trigger] t.subrange(
                        a,
                        t.len() as int,
                    );
                assert(strip_marker_spec(l) =~= l.subrange(a0 + a, b0));
            }
        }
    }
}

proof fn lemma_digit_prefix_bound(s: Seq<char>)
    ensures
        crate::normalize::digit_prefix_len(s) <= s.len(),
    decreases s.len(),
{
    if s.len() > 0 {
        lemma_digit_prefix_bound(s.drop_first());
    }
}

/// What `collect_entries` keeps is clean: one line each, trimmed, not empty,
/// and no two equal up to ASCII case.
proof fn lemma_collect_entries_clean(ls: Seq<Seq<char>>)
    requires
        forall|k: int| 0 <= k < ls.len() ==> single_line(#[trigger] ls[k]),
    ensures
        forall|k: int|
            0 <= k < collect_entries(ls).len() ==> single_line(#[trigger] collect_entries(ls)[k])
                && trimmed_nonempty(collect_entries(ls)[k]),
        distinct_ignoring_case(collect_entries(ls)),
    decreases ls.len(),
{
    if ls.len() > 0 {
        let prev = collect_entries(ls.drop_last());
        assert forall|k: int| 0 <= k < ls.drop_last().len() implies single_line(
            #[trigger] ls.drop_last()[k],
        ) by {
            assert(ls.drop_last()[k] == ls[k]);
        }
        lemma_collect_entries_clean(ls.drop_last());
        let l = ls.last();
        assert(single_line(ls[ls.len() - 1]));
        let e = strip_marker_spec(l);
        lemma_strip_marker_piece(l);
        if !(e.len() == 0 || contains_ignoring_case(prev, e)) {
            let (a, b) = choose|a: int, b: int| 0 <= a <= b <= l.len() && e == l.subrange(a, b);
            assert(single_line(e)) by {
                assert forall|i: int| 0 <= i < e.len() implies #[trigger] e[i] != '\n' && e[i]
                    != '\r' by {
                    assert(e[i] == l[a + i]);
                }
            }
            let es = prev.push(e);
            assert forall|i: int, j: int| 0 <= i < j < es.len() implies !eq_ignore_ascii_case(
                #[trigger] es[i],
                #[trigger] es[j],
            ) by {
                if j == es.len() - 1 {
                    assert(es[i] == prev[i]);
                } else {
                    assert(es[i] == prev[i] && es[j] == prev[j]);
                }
            }
            assert forall|k: int| 0 <= k < es.len() implies single_line(#[trigger] es[k])
                && trimmed_nonempty(es[k]) by {
                if k < prev.len() {
                    assert(es[k] == prev[k]);
                }
            }
        }
    }
}

/// Which lines the collected entries come from: for each entry the line it was
/// taken from, in the order of the lines; no earlier line gives an entry equal
/// to it up to ASCII case; and every line with an entry is represented.
proof fn lemma_collect_entries_origin(ls: Seq<Seq<char>>) -> (idx: Seq<int>)
    ensures
        idx.len() == collect_entries(ls).len(),
        forall|k: int|
            0 <= k < idx.len() ==> 0 <= #[trigger] idx[k] < ls.len() && collect_entries(ls)[k]
                == strip_marker_spec(ls[idx[k]]) && forall|j: int|
                0 <= j < idx[k] ==> !eq_ignore_ascii_case(
                    strip_marker_spec(#[trigger] ls[j]),
                    collect_entries(ls)[k],
                ),
        forall|k1: int, k2: int| 0 <= k1 < k2 < idx.len() ==> #[trigger] idx[k1] < #[trigger] idx[k2],
        forall|i: int|
            0 <= i < ls.len() && strip_marker_spec(#[trigger] ls[i]).len() > 0
                ==> contains_ignoring_case(collect_entries(ls), strip_marker_spec(ls[i])),
    decreases ls.len(),
{
    if ls.len() == 0 {
        Seq::empty()
    } else {
        let init = ls.drop_last();
        let prev = collect_entries(init);
        let pidx = lemma_collect_entries_origin(init);
        let e = strip_marker_spec(ls.last());
        let c = collect_entries(ls);
        assert forall|j: int| 0 <= j < init.len() implies #[trigger] init[j] == ls[j] by {}
        if e.len() == 0 || contains_ignoring_case(prev, e) {
            assert forall|i: int|
                0 <= i < ls.len() && strip_marker_spec(#[trigger] ls[i]).len() > 0
                    implies contains_ignoring_case(c, strip_marker_spec(ls[i])) by {
                if i < init.len() {
                    assert(init[i] == ls[i]);
                }
            }
            assert forall|k: int| 0 <= k < pidx.len() implies 0 <= #[trigger] pidx[k] < ls.len()
                && c[k] == strip_marker_spec(ls[pidx[k]]) && forall|j: int|
                0 <= j < pidx[k] ==> !eq_ignore_ascii_case(
                    strip_marker_spec(#[trigger] ls[j]),
                    c[k],
                ) by {
                assert(init[pidx[k]] == ls[pidx[k]]);
                assert forall|j: int| 0 <= j < pidx[k] implies !eq_ignore_ascii_case(
                    strip_marker_spec(#[trigger] ls[j]),
                    c[k],
                ) by {
                    assert(init[j] == ls[j]);
                }
            }
            pidx
        } else {
            let idx = pidx.push(ls.len() - 1);
            assert forall|i: int|
                0 <= i < ls.len() && strip_marker_spec(#[trigger] ls[i]).len() > 0
                    implies contains_ignoring_case(c, strip_marker_spec(ls[i])) by {
                if i < init.len() {
                    assert(init[i] == ls[i]);
                    let w = choose|w: int|
                        0 <= w < prev.len() && eq_ignore_ascii_case(
                            #[trigger] prev[w],
                            strip_marker_spec(ls[i]),
                        );
                    assert(c[w] == prev[w]);
                } else {
                    assert(c[prev.len() as int] == e);
                    assert(eq_ignore_ascii_case(c[prev.len() as int], e));
                }
            }
            assert forall|k: int| 0 <= k < idx.len() implies 0 <= #[trigger] idx[k] < ls.len()
                && c[k] == strip_marker_spec(ls[idx[k]]) && forall|j: int|
                0 <= j < idx[k] ==> !eq_ignore_ascii_case(
                    strip_marker_spec(#[trigger] ls[j]),
                    c[k],
                ) by {
                if k < pidx.len() {
                    assert(idx[k] == pidx[k]);
                    assert(c[k] == prev[k]);
                    assert(init[pidx[k]] == ls[pidx[k]]);
                    assert forall|j: int| 0 <= j < idx[k] implies !eq_ignore_ascii_case(
                        strip_marker_spec(#[trigger] ls[j]),
                        c[k],
                    ) by {
                        assert(init[j] == ls[j]);
                    }
                } else {
                    assert(c[k] == e);
                    assert forall|j: int| 0 <= j < idx[k] implies !eq_ignore_ascii_case(
                        strip_marker_spec(#[trigger] ls[j]),
                        c[k],
                    ) by {
                        let x = strip_marker_spec(ls[j]);
                        if eq_ignore_ascii_case(x, e) {
                            assert(init[j] == ls[j]);
                            assert(x.len() > 0);
                            let w = choose|w: int|
                                0 <= w < prev.len() && eq_ignore_ascii_case(#[trigger] prev[w], x);
                            assert(eq_ignore_ascii_case(prev[w], e));
                        }
                    }
                }
            }
            idx
        }
    }
}

// ---------------------------------------------------------------------------
// Laws
// ---------------------------------------------------------------------------

/// Every entry that `normalize` keeps is one line, has no whitespace at either
/// end and is not empty, and no two entries are equal up to ASCII case: a
/// watch list never holds the same film twice.
pub proof fn law_normalized_entries_clean(input: Seq<char>)
    ensures
        forall|k: int|
            0 <= k < normalized_entries(input).len() ==> single_line(
                #[trigger] normalized_entries(input)[k],
            ) && trimmed_nonempty(normalized_entries(input)[k]),
        distinct_ignoring_case(normalized_entries(input)),
{
    lemma_remove_cr_no_cr(input);
    lemma_lines_single(remove_cr(input));
    lemma_collect_entries_clean(lines(remove_cr(input)));
}

proof fn lemma_join_front(es: Seq<Seq<char>>)
    requires
        es.len() >= 2,
    ensures
        join_newline(es) == es[0] + seq!['\n'] + join_newline(es.drop_first()),
    decreases es.len(),
{
    if es.len() == 2 {
        assert(es.drop_last().len() == 1);
        assert(join_newline(es.drop_last()) == es[0]);
        assert(es.drop_first().len() == 1);
        assert(join_newline(es.drop_first()) == es[1]);
    } else {
        lemma_join_front(es.drop_last());
        assert(es.drop_last().drop_first() =~= es.drop_first().drop_last());
        assert(es.drop_first().last() == es.last());
        assert(es.drop_last()[0] == es[0]);
        assert(join_newline(es) =~= es[0] + seq!['\n'] + join_newline(es.drop_first()));
    }
}

/// Lines of one-line entries laid out by `list_text` are the entries again.
pub proof fn lemma_lines_list_text(es: Seq<Seq<char>>)
    requires
        es.len() > 0,
        forall|k: int| 0 <= k < es.len() ==> single_line(#[trigger] es[k]),
    ensures
        lines(list_text(es)) == es,
    decreases es.len(),
{
    let e = es[0];
    assert(single_line(es[0]));
    let text = list_text(es);
    let rest = if es.len() == 1 {
        Seq::<char>::empty()
    } else {
        list_text(es.drop_first())
    };
    if es.len() >= 2 {
        lemma_join_front(es);
    }
    assert(text =~= e + seq!['\n'] + rest);
    assert forall|i: int| 0 <= i < e.len() implies #[trigger] text[i] != '\n' by {
        assert(text[i] == e[i]);
    }
    lemma_first_newline_char(text, e.len() as int);
    assert(text.take(e.len() as int) =~= e);
    assert(strip_cr(e) == e);
    assert(text.skip(e.len() + 1 as int) =~= rest);
    if es.len() == 1 {
        assert(lines(rest) == Seq::<Seq<char>>::empty());
        assert(lines(text) =~= es);
    } else {
        assert forall|k: int| 0 <= k < es.drop_first().len() implies single_line(
            #[trigger] es.drop_first()[k],
        ) by {
            assert(es.drop_first()[k] == es[k + 1]);
        }
        lemma_lines_list_text(es.drop_first());
        assert(lines(text) =~= es);
    }
}

proof fn lemma_nonblank_all(ls: Seq<Seq<char>>)
    requires
        forall|k: int| 0 <= k < ls.len() ==> trimmed_nonempty(#[trigger] ls[k]),
    ensures
        nonblank(ls) == ls,
    decreases ls.len(),
{
    if ls.len() > 0 {
        assert forall|k: int| 0 <= k < ls.drop_last().len() implies trimmed_nonempty(
            #[trigger] ls.drop_last()[k],
        ) by {
            assert(ls.drop_last()[k] == ls[k]);
        }
        lemma_nonblank_all(ls.drop_last());
        let l = ls.last();
        assert(trimmed_nonempty(ls[ls.len() - 1]));
        lemma_ws_prefix_len(l);
        assert(ws_prefix_len(l) == 0) by {
            assert(!is_ws(l[0]));
        }
        assert(trim_start(l) =~= l);
        lemma_ws_suffix_len(l);
        assert(ws_suffix_len(l) == 0) by {
            assert(!is_ws(l.last()));
        }
        assert(trim(l) =~= l);
        assert(ls.drop_last().push(l) =~= ls);
    }
}

proof fn lemma_blank_text()
    ensures
        nonblank(lines(seq!['\n'])).len() == 0,
{
    let text = seq!['\n'];
    lemma_first_newline_char(text, 0);
    let e = Seq::<char>::empty();
    assert(text.take(0) =~= e);
    assert(text.skip(1) =~= e);
    assert(strip_cr(e) == e);
    assert(lines(e) == Seq::<Seq<char>>::empty());
    assert(lines(text) =~= seq![e]);
    let ls = lines(text);
    assert(ls.drop_last() =~= Seq::<Seq<char>>::empty());
    assert(nonblank(Seq::<Seq<char>>::empty()) == Seq::<Seq<char>>::empty());
    assert(ws_prefix_len(e) == 0);
    assert(trim(ls.last()).len() == 0);
}

/// The entries an edit stores are the entries `normalize` keeps: the
/// non-blank lines of the normalized text are exactly those entries.
pub proof fn law_edit_stores_normalized_entries(input: Seq<char>)
    ensures
        nonblank(lines(normalize_spec(input))) == normalized_entries(input),
{
    let es = normalized_entries(input);
    law_normalized_entries_clean(input);
    if es.len() == 0 {
        let text = normalize_spec(input);
        assert(text =~= seq!['\n']);
        lemma_blank_text();
        assert(nonblank(lines(text)) =~= es);
    } else {
        lemma_lines_list_text(es);
        lemma_nonblank_all(es);
    }
}

/// The edit dialog opens with the stored entries: reading its text back gives
/// them again, when each is one line with no whitespace at either end.
pub proof fn law_editor_round_trip(names: Seq<Seq<char>>)
    requires
        forall|k: int|
            0 <= k < names.len() ==> single_line(#[trigger] names[k]) && trimmed_nonempty(
                names[k],
            ),
    ensures
        nonblank(lines(list_text(names))) == names,
{
    if names.len() == 0 {
        let text = list_text(names);
        assert(text =~= seq!['\n']);
        lemma_blank_text();
        assert(nonblank(lines(text)) =~= names);
    } else {
        lemma_lines_list_text(names);
        lemma_nonblank_all(names);
    }
}

proof fn lemma_join_no_cr(es: Seq<Seq<char>>)
    requires
        forall|k: int| 0 <= k < es.len() ==> single_line(#[trigger] es[k]),
    ensures
        forall|i: int| 0 <= i < join_newline(es).len() ==> #[trigger] join_newline(es)[i] != '\r',
    decreases es.len(),
{
    if es.len() == 1 {
        assert(single_line(es[0]));
    } else if es.len() >= 2 {
        assert forall|k: int| 0 <= k < es.drop_last().len() implies single_line(
            #[trigger] es.drop_last()[k],
        ) by {
            assert(es.drop_last()[k] == es[k]);
        }
        lemma_join_no_cr(es.drop_last());
        let p = join_newline(es.drop_last());
        assert(single_line(es[es.len() - 1]));
        assert forall|i: int| 0 <= i < join_newline(es).len() implies #[trigger] join_newline(
            es,
        )[i] != '\r' by {
            if i < p.len() {
                assert(join_newline(es)[i] == p[i]);
            } else if i > p.len() {
                assert(join_newline(es)[i] == es.last()[i - p.len() - 1]);
            }
        }
    }
}

proof fn lemma_collect_fixed(es: Seq<Seq<char>>)
    requires
        forall|k: int|
            0 <= k < es.len() ==> (#[trigger] es[k]).len() > 0 && strip_marker_spec(es[k])
                == es[k],
        distinct_ignoring_case(es),
    ensures
        collect_entries(es) == es,
    decreases es.len(),
{
    if es.len() > 0 {
        let prev = es.drop_last();
        assert forall|k: int| 0 <= k < prev.len() implies (#[trigger] prev[k]).len() > 0
            && strip_marker_spec(prev[k]) == prev[k] by {
            assert(prev[k] == es[k]);
        }
        assert forall|i: int, j: int| 0 <= i < j < prev.len() implies !eq_ignore_ascii_case(
            #[trigger] prev[i],
            #[trigger] prev[j],
        ) by {
            assert(prev[i] == es[i] && prev[j] == es[j]);
        }
        lemma_collect_fixed(prev);
        let e = es.last();
        assert(es[es.len() - 1].len() > 0);
        assert(!contains_ignoring_case(prev, e)) by {
            assert forall|i: int| 0 <= i < prev.len() implies !eq_ignore_ascii_case(
                #[trigger] prev[i],
                e,
            ) by {
                assert(prev[i] == es[i]);
                assert(!eq_ignore_ascii_case(es[i], es[es.len() - 1]));
            }
        }
        assert(prev.push(e) =~= es);
    }
}

/// Submitting the edit dialog's text unchanged changes nothing, when the
/// stored entries are one line each, carry no list marker of their own, and
/// no two are equal up to ASCII case.
pub proof fn law_unchanged_submission(es: Seq<Seq<char>>)
    requires
        forall|k: int|
            0 <= k < es.len() ==> single_line(#[trigger] es[k]) && es[k].len() > 0
                && strip_marker_spec(es[k]) == es[k],
        distinct_ignoring_case(es),
    ensures
        normalize_spec(list_text(es)) == list_text(es),
{
    let text = list_text(es);
    lemma_join_no_cr(es);
    assert forall|i: int| 0 <= i < text.len() implies #[trigger] text[i] != '\r' by {
        if i < join_newline(es).len() {
            assert(text[i] == join_newline(es)[i]);
        }
    }
    lemma_remove_cr_noop(text);
    if es.len() == 0 {
        let e = Seq::<char>::empty();
        assert(text =~= seq!['\n']);
        lemma_first_newline_char(text, 0);
        assert(text.take(0) =~= e);
        assert(text.skip(1) =~= e);
        assert(strip_cr(e) == e);
        assert(lines(e) == Seq::<Seq<char>>::empty());
        assert(lines(text) =~= seq![e]);
        let ls = lines(text);
        assert(ls.drop_last() =~= Seq::<Seq<char>>::empty());
        assert(ws_prefix_len(e) == 0);
        assert(trim(e) =~= e);
        assert(strip_marker_spec(e).len() == 0) by {
            lemma_strip_marker_piece(e);
        }
        assert(ls.last() == e);
        assert(collect_entries(ls.drop_last()) == Seq::<Seq<char>>::empty());
        assert(collect_entries(ls) =~= es);
    } else {
        lemma_lines_list_text(es);
        lemma_collect_fixed(es);
    }
}

// ---------------------------------------------------------------------------
// The pinned message fits in one message
// ---------------------------------------------------------------------------

proof fn lemma_decimal_count(n: nat)
    requires
        n <= usize::MAX,
    ensures
        byte_len(decimal(n as int)) <= 20,
{
    assert(pow10(20) == 100000000000000000000) by {
        reveal_with_fuel(pow10, 21);
    }
    lemma_nat_digits_len(n, 20);
    lemma_nat_digits_ascii(n);
}

proof fn lemma_header_len(n: nat)
    requires
        n <= usize::MAX,
    ensures
        byte_len(header_text(n)) <= 200,
{
    reveal_strlit("## Watch List\n-# ");
    reveal_strlit(" ");
    reveal_strlit("entry");
    reveal_strlit("entries");
    reveal_strlit("\n\n");
    let a = "## Watch List\n-# "@;
    let b = decimal(n as int);
    let c = " "@;
    let d = if n == 1 {
        "entry"@
    } else {
        "entries"@
    };
    let e = "\n\n"@;
    lemma_decimal_count(n);
    lemma_byte_len_bounds(a);
    lemma_byte_len_bounds(c);
    lemma_byte_len_bounds(d);
    lemma_byte_len_bounds(e);
    lemma_byte_len_concat(a, b);
    lemma_byte_len_concat(a + b, c);
    lemma_byte_len_concat(a + b + c, d);
    lemma_byte_len_concat(a + b + c + d, e);
}

proof fn lemma_footer_len(by: Option<i64>, at: Option<i64>)
    ensures
        byte_len(footer_text(by, at)) <= 400,
{
    reveal_strlit("\n-# ");
    reveal_strlit("last updated by <@");
    reveal_strlit("> ");
    reveal_strlit("<t:");
    reveal_strlit(":R> ");
    reveal_strlit("\u{2022} edit with `/watchlist edit`");
    let a = "\n-# "@;
    let b = match by {
        Some(v) => "last updated by <@"@ + decimal(v as int) + "> "@,
        None => Seq::<char>::empty(),
    };
    let c = match at {
        Some(v) => if v > 0 {
            "<t:"@ + decimal(v as int) + ":R> "@
        } else {
            Seq::<char>::empty()
        },
        None => Seq::<char>::empty(),
    };
    let d = "\u{2022} edit with `/watchlist edit`"@;
    assert(footer_text(by, at) == a + b + c + d);
    lemma_byte_len_bounds(a);
    lemma_byte_len_bounds(d);
    match by {
        Some(v) => {
            lemma_decimal_i64(v);
            lemma_byte_len_bounds("last updated by <@"@);
            lemma_byte_len_bounds("> "@);
            lemma_byte_len_concat("last updated by <@"@, decimal(v as int));
            lemma_byte_len_concat("last updated by <@"@ + decimal(v as int), "> "@);
        },
        None => {},
    }
    match at {
        Some(v) => {
            lemma_decimal_i64(v);
            lemma_byte_len_bounds("<t:"@);
            lemma_byte_len_bounds(":R> "@);
            lemma_byte_len_concat("<t:"@, decimal(v as int));
            lemma_byte_len_concat("<t:"@ + decimal(v as int), ":R> "@);
        },
        None => {},
    }
    assert(byte_len(Seq::<char>::empty()) == 0);
    lemma_byte_len_concat(a, b);
    lemma_byte_len_concat(a + b, c);
    lemma_byte_len_concat(a + b + c, d);
}

proof fn lemma_more_line_len(hidden: nat)
    requires
        hidden <= usize::MAX,
    ensures
        byte_len(more_line(hidden)) <= 40,
{
    reveal_strlit("*\u{2026}and ");
    reveal_strlit(" more*\n");
    let a = "*\u{2026}and "@;
    let c = " more*\n"@;
    assert(byte_len(a) == 8) by {
        reveal_with_fuel(byte_len, 7);
    }
    assert(byte_len(c) == 7) by {
        reveal_with_fuel(byte_len, 8);
    }
    lemma_decimal_count(hidden);
    lemma_byte_len_concat(a, decimal(hidden as int));
    lemma_byte_len_concat(a + decimal(hidden as int), c);
}

/// A pinned watch list message never exceeds `MESSAGE_LIMIT` bytes, however
/// many entries the list holds and however long they are: the entries that do
/// not fit are counted instead of shown.
pub proof fn law_pinned_message_fits(
    entries: Seq<Seq<char>>,
    updated_by: Option<i64>,
    updated_at: Option<i64>,
)
    requires
        entries.len() <= usize::MAX,
    ensures
        byte_len(content_text(entries, updated_by, updated_at, Seq::empty())) <= MESSAGE_LIMIT,
{
    let h = header_text(entries.len());
    let f = footer_text(updated_by, updated_at);
    lemma_header_len(entries.len());
    lemma_footer_len(updated_by, updated_at);
    if entries.len() == 0 {
        reveal_strlit("*the list is empty.*");
        lemma_byte_len_bounds("*the list is empty.*"@);
        lemma_byte_len_concat(h, "*the list is empty.*"@);
        lemma_byte_len_concat(h + "*the list is empty.*"@, f);
    } else {
        let budget = body_budget(h, f);
        let empty = Seq::<char>::empty();
        let ps = numbered_lines(entries);
        let k = shown_count(entries, empty, budget);
        assert(byte_len(empty) == 0);
        lemma_fit_count_bound(ps, 0, budget);
        let shown = concat(ps.take(k as int));
        assert(byte_len(shown) <= budget) by {
            if k == 0 {
                assert(ps.take(0) =~= Seq::<Seq<char>>::empty());
                assert(concat(ps.take(0)) == Seq::<char>::empty());
            }
        }
        let tail = if k < entries.len() {
            more_line((entries.len() - k) as nat)
        } else {
            Seq::<char>::empty()
        };
        if k < entries.len() {
            lemma_more_line_len((entries.len() - k) as nat);
        }
        assert(body_text(entries, empty, budget) == empty + shown + tail);
        assert(empty + shown + tail =~= shown + tail);
        lemma_byte_len_concat(shown, tail);
        lemma_byte_len_concat(h, shown + tail);
        lemma_byte_len_concat(h + (shown + tail), f);
        assert(h + body_text(entries, empty, budget) + f == h + (shown + tail) + f);
    }
}

// ---------------------------------------------------------------------------
// Diffs and removed entries
// ---------------------------------------------------------------------------

/// The body of a diff message holds at most `max_body` bytes of diff lines;
/// only the note on how many lines were left out may go past it.
pub proof fn law_patch_body_bounded(formatted: Seq<char>, max_body: nat)
    requires
        change_lines(lines(formatted)).len() <= usize::MAX,
    ensures
        byte_len(patch_body_spec(formatted, max_body as int)) <= max_body + 44,
{
    let ps = with_newlines(change_lines(lines(formatted)));
    let k = fit_count(ps, 0, max_body as int);
    lemma_fit_count_bound(ps, 0, max_body as int);
    let shown = concat(ps.take(k as int));
    assert(byte_len(shown) <= max_body) by {
        if k == 0 {
            assert(ps.take(0) =~= Seq::<Seq<char>>::empty());
            assert(concat(ps.take(0)) == Seq::<char>::empty());
        }
    }
    let tail = if k < ps.len() {
        more_diff_line((ps.len() - k) as nat)
    } else {
        Seq::<char>::empty()
    };
    if k < ps.len() {
        let hidden = (ps.len() - k) as nat;
        reveal_strlit("\u{2026} ");
        reveal_strlit(" more diff lines\n");
        assert(byte_len("\u{2026} "@) == 4) by {
            reveal_with_fuel(byte_len, 3);
        }
        assert(byte_len(" more diff lines\n"@) == 17) by {
            lemma_ascii_byte_len(" more diff lines\n"@);
        }
        lemma_decimal_count(hidden);
        lemma_byte_len_concat("\u{2026} "@, decimal(hidden as int));
        lemma_byte_len_concat("\u{2026} "@ + decimal(hidden as int), " more diff lines\n"@);
        assert(byte_len(tail) <= 44);
    } else {
        assert(byte_len(tail) == 0);
    }
    lemma_byte_len_concat(shown, tail);
    assert(patch_body_spec(formatted, max_body as int) == shown + tail);
}

proof fn lemma_ascii_byte_len(s: Seq<char>)
    requires
        forall|i: int| 0 <= i < s.len() ==> (#[trigger] s[i] as u32) < 0x80,
    ensures
        byte_len(s) == s.len(),
    decreases s.len(),
{
    if s.len() > 0 {
        let d = s.drop_last();
        assert forall|i: int| 0 <= i < d.len() implies (#[trigger] d[i] as u32) < 0x80 by {
            assert(d[i] == s[i]);
        }
        lemma_ascii_byte_len(d);
        assert((s[s.len() - 1] as u32) < 0x80);
    }
}

/// The entries an edit deletes are exactly the old entries that the new list
/// no longer holds.
pub proof fn law_removed_entries(old: Seq<Seq<char>>, new: Seq<Seq<char>>)
    ensures
        forall|e: Seq<char>|
            #[trigger] removed_spec(old, new).contains(e) <==> (old.contains(e) && !new.contains(
                e,
            )),
    decreases old.len(),
{
    if old.len() > 0 {
        law_removed_entries(old.drop_last(), new);
        let prev = removed_spec(old.drop_last(), new);
        assert forall|e: Seq<char>| #[trigger]
            removed_spec(old, new).contains(e) <==> (old.contains(e) && !new.contains(e)) by {
            if old.contains(e) {
                let i = choose|i: int| 0 <= i < old.len() && old[i] == e;
                if i < old.len() - 1 {
                    assert(old.drop_last()[i] == e);
                }
            }
            if old.drop_last().contains(e) {
                let i = choose|i: int| 0 <= i < old.drop_last().len() && old.drop_last()[i] == e;
                assert(old[i] == e);
            }
            if !new.contains(old.last()) {
                if prev.push(old.last()).contains(e) && e != old.last() {
                    let grown = prev.push(old.last());
                    let i = choose|i: int| 0 <= i < grown.len() && grown[i] == e;
                    assert(prev[i] == e);
                }
                if prev.contains(e) {
                    let i = choose|i: int| 0 <= i < prev.len() && prev[i] == e;
                    assert(prev.push(old.last())[i] == e);
                }
                if e == old.last() {
                    assert(prev.push(old.last())[prev.len() as int] == e);
                }
            }
            assert(old[old.len() - 1] == old.last());
        }
    }
}

// ---------------------------------------------------------------------------
// Entry parts
// ---------------------------------------------------------------------------

proof fn lemma_first_title_end_range(h: Seq<char>, from: int, last: int)
    ensures
        first_title_end(h, from, last) matches Some(t) ==> from <= t <= last,
    decreases last - from + 1,
{
    if from <= last && !crate::entry_parts::title_may_end(h, from) {
        lemma_first_title_end_range(h, from + 1, last);
    }
}

proof fn lemma_last_non_newline_range(h: Seq<char>, w: int)
    requires
        w <= h.len(),
    ensures
        last_non_newline(h, w) matches Some(k) ==> 0 <= k < w && h[k] != '\n',
    decreases w,
{
    if w > 0 && h[w - 1] == '\n' {
        lemma_last_non_newline_range(h, w - 1);
    }
}

proof fn lemma_last_hash(s: Seq<char>)
    ensures
        last_hash(s) matches Some(i) ==> 0 <= i < s.len() && s[i] == '#' && forall|j: int|
            i < j < s.len() ==> #[trigger] s[j] != '#',
    decreases s.len(),
{
    if s.len() > 0 && s.last() != '#' {
        lemma_last_hash(s.drop_last());
        if let Some(i) = last_hash(s.drop_last()) {
            assert forall|j: int| i < j < s.len() implies #[trigger] s[j] != '#' by {
                if j < s.len() - 1 {
                    assert(s[j] == s.drop_last()[j]);
                }
            }
        }
    }
}

/// The title of an entry is one line and not empty; the comment of an entry
/// starts with its only '#'.
pub proof fn law_entry_parts_shape(text: Seq<char>)
    ensures
        entry_match(entry_haystack(text)) matches Some((a, b, _)) ==> {
            let title = entry_haystack(text).subrange(a, b);
            &&& 0 <= a < b <= entry_haystack(text).len()
            &&& forall|i: int| 0 <= i < title.len() ==> #[trigger] title[i] != '\n'
        },
        comment_of(text) matches Some(c) ==> c.len() > 0 && c[0] == '#' && forall|j: int|
            0 < j < c.len() ==> #[trigger] c[j] != '#',
{
    let h = entry_haystack(text);
    let w = ws_run_end(h, 0);
    assert(h.skip(0) =~= h);
    lemma_ws_prefix_len(h);
    if w < h.len() {
        let rest = h.skip(w);
        lemma_first_newline(rest);
        let e = w + first_newline(rest);
        lemma_first_title_end_range(h, w + 1, e);
        if let Some(t) = first_title_end(h, w + 1, e) {
            let title = h.subrange(w, t);
            assert forall|i: int| 0 <= i < title.len() implies #[trigger] title[i] != '\n' by {
                assert(title[i] == rest[i]);
            }
        }
    } else {
        lemma_last_non_newline_range(h, h.len() as int);
    }
    lemma_last_hash(text);
    if let Some(i) = last_hash(text) {
        let c = text.skip(i);
        assert forall|j: int| 0 < j < c.len() implies #[trigger] c[j] != '#' by {
            assert(c[j] == text[i + j]);
        }
    }
}


// ---------------------------------------------------------------------------
// List markers
// ---------------------------------------------------------------------------

/// The characters that, followed by a space, mark a bulleted entry line.
pub open spec fn is_bullet_char(c: char) -> bool {
    ||| c == '-'
    ||| c == '*'
    ||| c == '+'
    ||| c == '\u{2022}'
    ||| c == '\u{2013}'
    ||| c == '\u{2014}'
}

proof fn lemma_starts_with_one(s: Seq<char>, a: char)
    ensures
        starts_with(s, seq![a]) == (s.len() >= 1 && s[0] == a),
{
    if s.len() >= 1 && s[0] == a {
        assert(s.take(1) =~= seq![a]);
    }
    if starts_with(s, seq![a]) {
        assert(s.take(1)[0] == s[0]);
    }
}

proof fn lemma_starts_with_two(s: Seq<char>, a: char, b: char)
    ensures
        starts_with(s, seq![a, b]) == (s.len() >= 2 && s[0] == a && s[1] == b),
{
    if s.len() >= 2 && s[0] == a && s[1] == b {
        assert(s.take(2) =~= seq![a, b]);
    }
    if starts_with(s, seq![a, b]) {
        assert(s.take(2)[0] == s[0]);
        assert(s.take(2)[1] == s[1]);
    }
}

proof fn lemma_first_prefix_none(s: Seq<char>, ps: Seq<Seq<char>>)
    requires
        first_prefix(s, ps) == ps.len(),
    ensures
        forall|j: int| 0 <= j < ps.len() ==> !starts_with(s, #[trigger] ps[j]),
    decreases ps.len(),
{
    if ps.len() > 0 {
        lemma_first_prefix_none(s, ps.drop_first());
        assert forall|j: int| 0 <= j < ps.len() implies !starts_with(s, #[trigger] ps[j]) by {
            if j > 0 {
                assert(ps[j] == ps.drop_first()[j - 1]);
            }
        }
    }
}

/// Leading whitespace is dropped one character at a time.
proof fn lemma_trim_start_ws_front(s: Seq<char>)
    requires
        s.len() > 0,
        is_ws(s[0]),
    ensures
        trim_start(s) == trim_start(s.drop_first()),
{
    lemma_ws_prefix_len(s.drop_first());
    assert(s.skip(ws_prefix_len(s) as int) =~= s.drop_first().skip(
        ws_prefix_len(s.drop_first()) as int,
    ));
}

/// A line starts with one of the bullet markers exactly when its first
/// character is a bullet character and its second a space; each marker is two
/// characters long.
proof fn lemma_bullet_prefix(u: Seq<char>)
    ensures
        (first_prefix(u, bullet_markers()) < bullet_markers().len()) == (u.len() >= 2
            && is_bullet_char(u[0]) && u[1] == ' '),
        first_prefix(u, bullet_markers()) < bullet_markers().len() ==> bullet_markers()[first_prefix(
            u,
            bullet_markers(),
        ) as int].len() == 2,
{
    let ps = bullet_markers();
    let fp = first_prefix(u, ps);
    lemma_first_prefix_found(u, ps);
    lemma_starts_with_two(u, '-', ' ');
    lemma_starts_with_two(u, '*', ' ');
    lemma_starts_with_two(u, '+', ' ');
    lemma_starts_with_two(u, '\u{2022}', ' ');
    lemma_starts_with_two(u, '\u{2013}', ' ');
    lemma_starts_with_two(u, '\u{2014}', ' ');
    assert(ps[0] == seq!['-', ' ']);
    assert(ps[1] == seq!['*', ' ']);
    assert(ps[2] == seq!['+', ' ']);
    assert(ps[3] == seq!['\u{2022}', ' ']);
    assert(ps[4] == seq!['\u{2013}', ' ']);
    assert(ps[5] == seq!['\u{2014}', ' ']);
    if fp == ps.len() {
        lemma_first_prefix_none(u, ps);
        assert(!starts_with(u, ps[0]));
        assert(!starts_with(u, ps[1]));
        assert(!starts_with(u, ps[2]));
        assert(!starts_with(u, ps[3]));
        assert(!starts_with(u, ps[4]));
        assert(!starts_with(u, ps[5]));
    }
}

/// A line whose first non-blank character is no digit loses a leading
/// bullet (`-`, `*`, `+`, `•`, `–` or `—` followed by a space) and the blanks
/// after it, and is otherwise only trimmed.
pub proof fn law_bullet_marker(line: Seq<char>)
    requires
        !(trim(line).len() > 0 && is_ascii_digit_char(trim(line)[0])),
    ensures
        trim(line).len() >= 2 && is_bullet_char(trim(line)[0]) && trim(line)[1] == ' '
            ==> strip_marker_spec(line) == trim_start(trim(line).skip(2)),
        !(trim(line).len() >= 2 && is_bullet_char(trim(line)[0]) && trim(line)[1] == ' ')
            ==> strip_marker_spec(line) == trim(line),
{
    let u = trim(line);
    lemma_bullet_prefix(u);
    if u.len() > 0 {
        lemma_digit_prefix_len_at(u, 0);
    } else {
        lemma_digit_prefix_len_at(u, 0);
    }
}

/// A line that starts, after blanks, with `k` ASCII digits: when there are at
/// most four of them and they are followed by `.`, `)` or `- `, that number
/// and separator, and the blanks after them, are dropped; any other line (a
/// year followed by `:`, a longer number, digits followed by a letter) is
/// only trimmed.
pub proof fn law_numbered_marker(line: Seq<char>, k: int)
    requires
        1 <= k <= trim(line).len(),
        forall|i: int| 0 <= i < k ==> is_ascii_digit_char(#[trigger] trim(line)[i]),
        k < trim(line).len() ==> !is_ascii_digit_char(trim(line)[k]),
    ensures
        ({
            let u = trim(line);
            if k <= 4 && k < u.len() && (u[k] == '.' || u[k] == ')' || (u[k] == '-' && k + 1
                < u.len() && u[k + 1] == ' ')) {
                strip_marker_spec(line) == trim_start(u.skip(k + 1))
            } else {
                strip_marker_spec(line) == u
            }
        }),
{
    let u = trim(line);
    assert(is_ascii_digit_char(u[0]));
    lemma_bullet_prefix(u);
    lemma_digit_prefix_len_at(u, k);
    if k <= 4 {
        let rest = u.skip(k);
        let ps = number_separators();
        let sp = first_prefix(rest, ps);
        lemma_first_prefix_found(rest, ps);
        lemma_starts_with_two(rest, '.', ' ');
        lemma_starts_with_two(rest, ')', ' ');
        lemma_starts_with_two(rest, '-', ' ');
        lemma_starts_with_one(rest, '.');
        lemma_starts_with_one(rest, ')');
        assert(ps[0] == seq!['.', ' ']);
        assert(ps[1] == seq![')', ' ']);
        assert(ps[2] == seq!['-', ' ']);
        assert(ps[3] == seq!['.']);
        assert(ps[4] == seq![')']);
        if rest.len() >= 1 {
            assert(rest.skip(1) =~= u.skip(k + 1));
        }
        if rest.len() >= 2 {
            assert(rest.skip(2) =~= u.skip(k + 1).drop_first());
            assert(rest[1] == u.skip(k + 1)[0]);
            assert(rest[1] == u[k + 1]);
            if rest[1] == ' ' {
                lemma_trim_start_ws_front(u.skip(k + 1));
            }
        }
        if rest.len() >= 1 {
            assert(rest[0] == u[k]);
        }
        if sp == ps.len() {
            lemma_first_prefix_none(rest, ps);
            assert(!starts_with(rest, ps[2]));
            assert(!starts_with(rest, ps[3]));
            assert(!starts_with(rest, ps[4]));
        }
    }
}

/// `normalize` keeps, in the order of the lines, the entry of every line that
/// has one, each as the first line that gives it wrote it: of entries equal up
/// to ASCII case the earliest stays, and no entry comes from nowhere.
pub proof fn law_normalize_keeps_first(input: Seq<char>)
    ensures
        ({
            let ls = lines(remove_cr(input));
            let es = normalized_entries(input);
            &&& forall|i: int|
                0 <= i < ls.len() && strip_marker_spec(#[trigger] ls[i]).len() > 0
                    ==> contains_ignoring_case(es, strip_marker_spec(ls[i]))
            &&& exists|idx: Seq<int>|
                {
                    &&& idx.len() == es.len()
                    &&& forall|k: int|
                        0 <= k < idx.len() ==> 0 <= #[trigger] idx[k] < ls.len() && es[k]
                            == strip_marker_spec(ls[idx[k]]) && forall|j: int|
                            0 <= j < idx[k] ==> !eq_ignore_ascii_case(
                                strip_marker_spec(#[trigger] ls[j]),
                                es[k],
                            )
                    &&& forall|k1: int, k2: int|
                        0 <= k1 < k2 < idx.len() ==> #[trigger] idx[k1] < #[trigger] idx[k2]
                }
        }),
{
    let idx = lemma_collect_entries_origin(lines(remove_cr(input)));
}

proof fn lemma_concat_take_within(ps: Seq<Seq<char>>, j: int)
    requires
        0 <= j <= ps.len(),
    ensures
        byte_len(concat(ps.take(j))) <= byte_len(concat(ps)),
    decreases ps.len() - j,
{
    if j == ps.len() {
        assert(ps.take(j) =~= ps);
    } else {
        lemma_concat_take_within(ps, j + 1);
        crate::text::lemma_concat_take_step(ps, j);
        lemma_byte_len_concat(concat(ps.take(j)), ps[j]);
    }
}

/// The first `k` entries as the lines of a numbered list counted from 1.
pub open spec fn numbered_from_one(entries: Seq<Seq<char>>, k: nat) -> Seq<char> {
    concat(Seq::new(k, |i: int| decimal(i + 1) + ". "@ + entries[i] + "\n"@))
}

/// A pinned watch list message lists the entries in their order, numbered
/// from 1, as many from the first on as it shows, and then says how many it
/// left out; when all of them fit in the message, it shows all of them.
pub proof fn law_pinned_message_lists_entries(
    entries: Seq<Seq<char>>,
    updated_by: Option<i64>,
    updated_at: Option<i64>,
)
    requires
        entries.len() > 0,
    ensures
        exists|k: nat|
            k <= entries.len() && content_text(entries, updated_by, updated_at, Seq::empty())
                == header_text(entries.len()) + #[trigger] numbered_from_one(entries, k) + (if k
                < entries.len() {
                "*\u{2026}and "@ + decimal(entries.len() - k) + " more*\n"@
            } else {
                Seq::empty()
            }) + footer_text(updated_by, updated_at),
        byte_len(header_text(entries.len())) + byte_len(footer_text(updated_by, updated_at)) + 40
            + byte_len(numbered_from_one(entries, entries.len())) <= MESSAGE_LIMIT
            ==> content_text(entries, updated_by, updated_at, Seq::empty()) == header_text(
            entries.len(),
        ) + numbered_from_one(entries, entries.len()) + footer_text(updated_by, updated_at),
{
    let n = entries.len();
    let h = header_text(n);
    let f = footer_text(updated_by, updated_at);
    let ps = numbered_lines(entries);
    let all = Seq::new(n, |i: int| decimal(i + 1) + ". "@ + entries[i] + "\n"@);
    assert(ps =~= all);
    let budget = body_budget(h, f);
    let k = shown_count(entries, Seq::empty(), budget);
    assert(byte_len(Seq::<char>::empty()) == 0);
    lemma_fit_count_bound(ps, 0, budget);
    let shown = Seq::new(k, |i: int| decimal(i + 1) + ". "@ + entries[i] + "\n"@);
    assert(ps.take(k as int) =~= shown);
    let more = if k < n {
        "*\u{2026}and "@ + decimal(n - k) + " more*\n"@
    } else {
        Seq::<char>::empty()
    };
    assert(content_text(entries, updated_by, updated_at, Seq::empty()) =~= h
        + numbered_from_one(entries, k) + more + f);
    if byte_len(h) + byte_len(f) + 40 + byte_len(concat(all)) <= MESSAGE_LIMIT {
        assert forall|j: int| 0 <= j < n implies 0 + byte_len(concat(#[trigger] ps.take(j + 1)))
            <= budget by {
            lemma_concat_take_within(ps, j + 1);
        }
        crate::text::lemma_fit_count_step(ps, 0, budget, n as int);
        assert(ps.skip(n as int).len() == 0);
        assert(k == n);
    }
}

/// The entry text of a title followed by a space and a year, in parentheses
/// or not.
pub open spec fn titled_entry(title: Seq<char>, year: Seq<char>, parens: bool) -> Seq<char> {
    title + " "@ + (if parens {
        "("@ + year + ")"@
    } else {
        year
    })
}

proof fn lemma_ws_prefix_len_below(s: Seq<char>, k: int)
    requires
        0 <= k < s.len(),
        !is_ws(s[k]),
    ensures
        ws_prefix_len(s) <= k,
{
    lemma_ws_prefix_len(s);
}

proof fn lemma_no_hash(s: Seq<char>)
    requires
        forall|i: int| 0 <= i < s.len() ==> #[trigger] s[i] != '#',
    ensures
        last_hash(s) is None,
    decreases s.len(),
{
    if s.len() > 0 {
        assert(s.last() == s[s.len() - 1]);
        assert forall|i: int| 0 <= i < s.len() - 1 implies #[trigger] s.drop_last()[i] != '#' by {
            assert(s.drop_last()[i] == s[i]);
        }
        lemma_no_hash(s.drop_last());
    }
}

proof fn lemma_first_title_end_skip(h: Seq<char>, from: int, m: int, last: int)
    requires
        from <= m <= last,
        forall|j: int| from <= j < m ==> !title_may_end(h, j),
    ensures
        first_title_end(h, from, last) == first_title_end(h, m, last),
    decreases m - from,
{
    if from < m {
        lemma_first_title_end_skip(h, from + 1, m, last);
    }
}

/// An entry written as a title, a space and a four-digit year, in
/// parentheses or not, splits into that title and that year, with no comment;
/// the title may hold spaces and digits of its own, but no '#' and no line
/// break, and starts and ends with a character other than whitespace.
pub proof fn law_entry_title_and_year(title: Seq<char>, year: Seq<char>, parens: bool)
    requires
        title.len() > 0,
        !is_ws(title[0]),
        !is_ws(title.last()),
        forall|i: int| 0 <= i < title.len() ==> #[trigger] title[i] != '\n' && title[i] != '#',
        year.len() == 4,
        forall|i: int| 0 <= i < 4 ==> is_ascii_digit_char(#[trigger] year[i]),
    ensures
        ({
            let text = titled_entry(title, year, parens);
            let p = title.len() + if parens {
                2int
            } else {
                1int
            };
            &&& comment_of(text) is None
            &&& entry_haystack(text) == text
            &&& entry_match(text) == Some((0int, title.len() as int, Some(p)))
            &&& text.subrange(0, title.len() as int) == title
            &&& text.subrange(p, p + 4) == year
            &&& year_value(year) == Some(
                (1000 * digit_value(year[0]) + 100 * digit_value(year[1]) + 10 * digit_value(
                    year[2],
                ) + digit_value(year[3])) as i64,
            )
        }),
{
    reveal_strlit(" ");
    reveal_strlit("(");
    reveal_strlit(")");
    let h = titled_entry(title, year, parens);
    let n = title.len() as int;
    let p = n + if parens {
        2int
    } else {
        1int
    };
    let len = h.len() as int;
    assert(len == n + if parens {
        7int
    } else {
        5int
    });
    assert forall|i: int| 0 <= i < n implies #[trigger] h[i] == title[i] by {}
    assert(h[n] == ' ');
    assert forall|i: int| 0 <= i < 4 implies #[trigger] h[p + i] == year[i] by {}
    if parens {
        assert(h[n + 1] == '(');
        assert(h[n + 6] == ')');
    }
    assert(!is_ws(h[len - 1]));
    assert forall|i: int| 0 <= i < len implies #[trigger] h[i] != '#' && h[i] != '\n' by {
        if i < n {
            assert(h[i] == title[i]);
        } else if p <= i < p + 4 {
            assert(h[i] == year[i - p]);
        }
    }
    lemma_no_hash(h);
    assert(comment_of(h) is None);
    assert(entry_haystack(h) == h);
    // No whitespace at the start, no line break anywhere.
    assert(h.skip(0) =~= h);
    assert(!is_ws(h[0]));
    lemma_ws_prefix_len_below(h, 0);
    assert(ws_run_end(h, 0) == 0);
    assert forall|i: int| 0 <= i < len implies #[trigger] h.skip(0)[i] != '\n' by {}
    lemma_first_newline_char(h.skip(0), len);
    // No end before the title's own end will do.
    assert forall|j: int| 1 <= j < n implies !title_may_end(h, j) by {
        let s = h.skip(j);
        assert(s[n - 1 - j] == h[n - 1]);
        lemma_ws_prefix_len_below(s, n - 1 - j);
        let a = ws_run_end(h, j);
        assert(a <= n - 1);
        if let Some(q) = year_group_at(h, j) {
            let p2 = if a < len && h[a] == '(' {
                a + 1
            } else {
                a
            };
            let q0 = p2 + 4;
            let qq = if q0 < len && h[q0] == ')' {
                q0 + 1
            } else {
                q0
            };
            if qq < len {
                let s2 = h.skip(qq);
                assert(s2[len - 1 - qq] == h[len - 1]);
                lemma_ws_prefix_len_below(s2, len - 1 - qq);
            }
            assert(is_decimal_digit(h[p2]));
            assert(false);
        }
    }
    // The title ends at its own end.
    let s = h.skip(n);
    assert(s[0] == ' ');
    assert(s[1] == h[n + 1]);
    lemma_ws_prefix_len_char(s, 1);
    assert(ws_run_end(h, n) == n + 1);
    assert(h.skip(len).len() == 0);
    assert(ws_prefix_len(h.skip(len)) == 0);
    assert(year_group_at(h, n) == Some(p));
    assert(title_may_end(h, n));
    lemma_first_title_end_skip(h, 1, n, len);
    assert(first_title_end(h, n, len) == Some(n));
    assert(h.subrange(0, n) =~= title);
    assert(h.subrange(p, p + 4) =~= year);
}

} // verus!

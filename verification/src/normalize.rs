use vstd::prelude::*;
use crate::pinned_message::WatchListPinnedMessage;
use crate::text::{
    chars_of, eq_ignore_ascii_case, eq_ignore_case, has_prefix_at, lines, lines_of, push_char,
    push_chars, is_ascii_digit_char, slice_vec, starts_with, string_of, trim, trim_range,
    trim_start, trim_start_from, vec_views,
};

verus! {

// ---------------------------------------------------------------------------
// List markers
// ---------------------------------------------------------------------------

/// Bullet markers that may start an entry line, in the order they are tried.
pub open spec fn bullet_markers() -> Seq<Seq<char>> {
    seq![
        seq!['-', ' '],
        seq!['*', ' '],
        seq!['+', ' '],
        seq!['\u{2022}', ' '],
        seq!['\u{2013}', ' '],
        seq!['\u{2014}', ' '],
    ]
}

/// What may follow the number of a numbered entry line, in the order tried.
pub open spec fn number_separators() -> Seq<Seq<char>> {
    seq![seq!['.', ' '], seq![')', ' '], seq!['-', ' '], seq!['.'], seq![')']]
}

/// Index of the first of `ps` that `s` starts with, or `ps.len()` if none.
pub open spec fn first_prefix(s: Seq<char>, ps: Seq<Seq<char>>) -> nat
    decreases ps.len(),
{
    if ps.len() == 0 || starts_with(s, ps[0]) {
        0
    } else {
        1 + first_prefix(s, ps.drop_first())
    }
}

/// Number of leading ASCII digits.
pub open spec fn digit_prefix_len(s: Seq<char>) -> nat
    decreases s.len(),
{
    if s.len() > 0 && is_ascii_digit_char(s[0]) {
        1 + digit_prefix_len(s.drop_first())
    } else {
        0
    }
}

/// An entry line without surrounding whitespace and without its list marker:
/// a bullet (`- `, `* `, `+ `, `• `, `– `, `— `), or a number of at most four
/// digits followed by `. `, `) `, `- `, `.` or `)`.
pub open spec fn strip_marker_spec(line: Seq<char>) -> Seq<char> {
    let t = trim(line);
    let k = first_prefix(t, bullet_markers());
    if k < bullet_markers().len() {
        trim_start(t.skip(bullet_markers()[k as int].len() as int))
    } else {
        let d = digit_prefix_len(t);
        if 1 <= d <= 4 {
            let rest = t.skip(d as int);
            let j = first_prefix(rest, number_separators());
            if j < number_separators().len() {
                trim_start(rest.skip(number_separators()[j as int].len() as int))
            } else {
                t
            }
        } else {
            t
        }
    }
}

pub proof fn lemma_first_prefix_found(s: Seq<char>, ps: Seq<Seq<char>>)
    ensures
        first_prefix(s, ps) <= ps.len(),
        first_prefix(s, ps) < ps.len() ==> starts_with(s, ps[first_prefix(s, ps) as int]),
    decreases ps.len(),
{
    if !(ps.len() == 0 || starts_with(s, ps[0])) {
        lemma_first_prefix_found(s, ps.drop_first());
    }
}

pub proof fn lemma_first_prefix_at(s: Seq<char>, ps: Seq<Seq<char>>, k: int)
    requires
        0 <= k <= ps.len(),
        forall|j: int| 0 <= j < k ==> !starts_with(s, #[trigger] ps[j]),
        k < ps.len() ==> starts_with(s, ps[k]),
    ensures
        first_prefix(s, ps) == k,
    decreases ps.len(),
{
    if k > 0 {
        assert forall|j: int| 0 <= j < k - 1 implies !starts_with(
            s,
            #[trigger] ps.drop_first()[j],
        ) by {
            assert(ps.drop_first()[j] == ps[j + 1]);
        }
        assert(!starts_with(s, ps[0]));
        lemma_first_prefix_at(s, ps.drop_first(), k - 1);
    }
}

pub proof fn lemma_digit_prefix_len_at(s: Seq<char>, k: int)
    requires
        0 <= k <= s.len(),
        forall|i: int| 0 <= i < k ==> is_ascii_digit_char(#[trigger] s[i]),
        k < s.len() ==> !is_ascii_digit_char(s[k]),
    ensures
        digit_prefix_len(s) == k,
    decreases s.len(),
{
    if k > 0 {
        assert forall|i: int| 0 <= i < k - 1 implies is_ascii_digit_char(
            #[trigger] s.drop_first()[i],
        ) by {
            assert(s.drop_first()[i] == s[i + 1]);
        }
        lemma_digit_prefix_len_at(s.drop_first(), k - 1);
    }
}

/// Index of the first of `ps` that `v[lo..hi]` starts with, or `ps.len()`.
fn first_prefix_at(v: &Vec<char>, lo: usize, hi: usize, ps: &Vec<Vec<char>>) -> (k: usize)
    requires
        lo <= hi <= v.len(),
    ensures
        k == first_prefix(v@.subrange(lo as int, hi as int), vec_views(ps@)),
{
    let ghost sub = v@.subrange(lo as int, hi as int);
    let ghost pv = vec_views(ps@);
    let mut k: usize = 0;
    while k < ps.len()
        invariant
            k <= ps.len(),
            lo <= hi <= v.len(),
            sub == v@.subrange(lo as int, hi as int),
            pv == vec_views(ps@),
            forall|j: int| 0 <= j < k ==> !starts_with(sub, #[trigger] pv[j]),
        decreases ps.len() - k,
    {
        if has_prefix_at(v, lo, hi, &ps[k]) {
            proof {
                lemma_first_prefix_at(sub, pv, k as int);
            }
            return k;
        }
        k = k + 1;
    }
    proof {
        lemma_first_prefix_at(sub, pv, k as int);
    }
    k
}

fn markers_vec() -> (r: Vec<Vec<char>>)
    ensures
        vec_views(r@) == bullet_markers(),
{
    let r = vec![
        vec!['-', ' '],
        vec!['*', ' '],
        vec!['+', ' '],
        vec!['\u{2022}', ' '],
        vec!['\u{2013}', ' '],
        vec!['\u{2014}', ' '],
    ];
    assert(vec_views(r@) =~= bullet_markers());
    r
}

fn separators_vec() -> (r: Vec<Vec<char>>)
    ensures
        vec_views(r@) == number_separators(),
{
    let r = vec![vec!['.', ' '], vec![')', ' '], vec!['-', ' '], vec!['.'], vec![')']];
    assert(r@[3]@ =~= seq!['.']);
    assert(r@[4]@ =~= seq![')']);
    assert(r@[0]@ =~= seq!['.', ' ']);
    assert(r@[1]@ =~= seq![')', ' ']);
    assert(r@[2]@ =~= seq!['-', ' ']);
    assert(vec_views(r@) =~= number_separators());
    r
}

/// Bounds of `strip_marker_spec(v[lo..hi])` inside `v`.
pub fn strip_marker_range(v: &Vec<char>, lo: usize, hi: usize) -> (r: (usize, usize))
    requires
        lo <= hi <= v.len(),
    ensures
        lo <= r.0 <= r.1 <= hi,
        v@.subrange(r.0 as int, r.1 as int) == strip_marker_spec(v@.subrange(lo as int, hi as int)),
{
    let (a, b) = trim_range(v, lo, hi);
    let ghost t = v@.subrange(a as int, b as int);
    let markers = markers_vec();
    let k = first_prefix_at(v, a, b, &markers);
    proof {
        lemma_first_prefix_found(t, vec_views(markers@));
    }
    if k < markers.len() {
        assert(markers@[k as int]@ == vec_views(markers@)[k as int]);
        let start = a + markers[k].len();
        proof {
            assert(t.skip(markers@[k as int]@.len() as int) =~= v@.subrange(
                start as int,
                b as int,
            ));
        }
        let s2 = trim_start_from(v, start, b);
        return (s2, b);
    }
    let mut d = a;
    while d < b && '0' <= v[d] && v[d] <= '9'
        invariant
            a <= d <= b <= v.len(),
            forall|i: int| a <= i < d ==> is_ascii_digit_char(#[trigger] v@[i]),
        decreases b - d,
    {
        d = d + 1;
    }
    proof {
        assert forall|i: int| 0 <= i < d - a implies is_ascii_digit_char(#[trigger] t[i]) by {
            assert(t[i] == v@[a + i]);
        }
        if d < b {
            assert(t[d - a] == v@[d as int]);
        }
        lemma_digit_prefix_len_at(t, d - a);
    }
    if d > a && d - a <= 4 {
        let seps = separators_vec();
        proof {
            assert(t.skip(d - a) =~= v@.subrange(d as int, b as int));
        }
        let j = first_prefix_at(v, d, b, &seps);
        proof {
            lemma_first_prefix_found(v@.subrange(d as int, b as int), vec_views(seps@));
        }
        if j < seps.len() {
            assert(seps@[j as int]@ == vec_views(seps@)[j as int]);
            let start = d + seps[j].len();
            proof {
                assert(v@.subrange(d as int, b as int).skip(seps@[j as int]@.len() as int)
                    =~= v@.subrange(start as int, b as int));
            }
            let s2 = trim_start_from(v, start, b);
            return (s2, b);
        }
    }
    (a, b)
}

impl WatchListPinnedMessage {
    /// `line` without surrounding whitespace and without a leading list marker.
    pub fn strip_marker(line: &str) -> (r: String)
        ensures
            r@ == strip_marker_spec(line@),
    {
        let v = chars_of(line);
        let (a, b) = strip_marker_range(&v, 0, v.len());
        assert(v@.subrange(0, v@.len() as int) =~= v@);
        let w = slice_vec(&v, a, b);
        string_of(&w)
    }
}

// ---------------------------------------------------------------------------
// Normalizing an edited list
// ---------------------------------------------------------------------------

/// `s` with every `'\r'` removed.
pub open spec fn remove_cr(s: Seq<char>) -> Seq<char>
    decreases s.len(),
{
    if s.len() == 0 {
        s
    } else if s.last() == '\r' {
        remove_cr(s.drop_last())
    } else {
        remove_cr(s.drop_last()).push(s.last())
    }
}

/// Whether `es` holds an entry equal to `e` up to ASCII case.
pub open spec fn contains_ignoring_case(es: Seq<Seq<char>>, e: Seq<char>) -> bool {
    exists|i: int| 0 <= i < es.len() && eq_ignore_ascii_case(#[trigger] es[i], e)
}

/// The entries of the lines `ls`, in order: markers stripped, empty ones
/// dropped, and of entries equal up to ASCII case only the first kept.
pub open spec fn collect_entries(ls: Seq<Seq<char>>) -> Seq<Seq<char>>
    decreases ls.len(),
{
    if ls.len() == 0 {
        Seq::empty()
    } else {
        let prev = collect_entries(ls.drop_last());
        let e = strip_marker_spec(ls.last());
        if e.len() == 0 || contains_ignoring_case(prev, e) {
            prev
        } else {
            prev.push(e)
        }
    }
}

/// The entries that `normalize` keeps of `input`.
pub open spec fn normalized_entries(input: Seq<char>) -> Seq<Seq<char>> {
    collect_entries(lines(remove_cr(input)))
}

/// The entries joined by `'\n'` (no separator before the first).
pub open spec fn join_newline(es: Seq<Seq<char>>) -> Seq<char>
    decreases es.len(),
{
    if es.len() == 0 {
        Seq::empty()
    } else if es.len() == 1 {
        es[0]
    } else {
        join_newline(es.drop_last()) + seq!['\n'] + es.last()
    }
}

/// The entries one per line, each line ended by `'\n'`; `"\n"` for none.
pub open spec fn list_text(es: Seq<Seq<char>>) -> Seq<char> {
    join_newline(es).push('\n')
}

/// What `normalize` returns for `input`.
pub open spec fn normalize_spec(input: Seq<char>) -> Seq<char> {
    list_text(normalized_entries(input))
}

fn remove_cr_vec(v: &Vec<char>) -> (r: Vec<char>)
    ensures
        r@ == remove_cr(v@),
{
    let mut r: Vec<char> = Vec::new();
    let mut i: usize = 0;
    while i < v.len()
        invariant
            i <= v.len(),
            r@ == remove_cr(v@.take(i as int)),
        decreases v.len() - i,
    {
        assert(v@.take(i + 1).drop_last() =~= v@.take(i as int));
        if v[i] != '\r' {
            r.push(v[i]);
        }
        i = i + 1;
    }
    assert(v@.take(i as int) =~= v@);
    r
}

fn contains_ignore_case_vec(es: &Vec<Vec<char>>, e: &Vec<char>) -> (r: bool)
    ensures
        r == contains_ignoring_case(vec_views(es@), e@),
{
    let mut i: usize = 0;
    while i < es.len()
        invariant
            i <= es.len(),
            forall|j: int| 0 <= j < i ==> !eq_ignore_ascii_case(#[trigger] vec_views(es@)[j], e@),
        decreases es.len() - i,
    {
        if eq_ignore_case(&es[i], e) {
            assert(vec_views(es@)[i as int] == es@[i as int]@);
            return true;
        }
        i = i + 1;
    }
    false
}

/// The entries joined as `list_text` lays them out.
pub fn join_entries(es: &Vec<Vec<char>>) -> (r: String)
    ensures
        r@ == list_text(vec_views(es@)),
{
    let mut r = String::new();
    let mut i: usize = 0;
    while i < es.len()
        invariant
            i <= es.len(),
            r@ == join_newline(vec_views(es@).take(i as int)),
        decreases es.len() - i,
    {
        if i > 0 {
            push_char(&mut r, '\n');
        }
        push_chars(&mut r, &es[i]);
        proof {
            let t = vec_views(es@).take(i + 1);
            assert(t.drop_last() =~= vec_views(es@).take(i as int));
            assert(t.last() == es@[i as int]@);
            if i == 0 {
                assert(r@ =~= t[0]);
            } else {
                assert(r@ =~= join_newline(t.drop_last()) + seq!['\n'] + t.last());
            }
        }
        i = i + 1;
    }
    assert(vec_views(es@).take(i as int) =~= vec_views(es@));
    push_char(&mut r, '\n');
    r
}

impl WatchListPinnedMessage {
    /// The edited list with one entry per line: carriage returns removed, markers
    /// stripped, blank lines dropped, and entries that repeat an earlier one up to
    /// ASCII case dropped; every line, the last too, ends with `'\n'`.
    pub fn normalize(input: &str) -> (r: String)
        ensures
            r@ == normalize_spec(input@),
    {
        let raw = chars_of(input);
        let clean = remove_cr_vec(&raw);
        let ls = lines_of(&clean);
        let ghost lv = vec_views(ls@);
        let mut entries: Vec<Vec<char>> = Vec::new();
        let mut i: usize = 0;
        while i < ls.len()
            invariant
                i <= ls.len(),
                lv == vec_views(ls@),
                vec_views(entries@) == collect_entries(lv.take(i as int)),
            decreases ls.len() - i,
        {
            let line = &ls[i];
            let (a, b) = strip_marker_range(line, 0, line.len());
            proof {
                assert(line@.subrange(0, line@.len() as int) =~= line@);
                assert(lv.take(i + 1).drop_last() =~= lv.take(i as int));
                assert(lv.take(i + 1).last() == line@);
            }
            if a < b {
                let entry = slice_vec(line, a, b);
                if !contains_ignore_case_vec(&entries, &entry) {
                    let ghost before = entries@;
                    entries.push(entry);
                    assert(vec_views(entries@) =~= vec_views(before).push(entry@));
                }
            }
            i = i + 1;
        }
        assert(lv.take(i as int) =~= lv);
        join_entries(&entries)
    }
}

} // verus!

use vstd::prelude::*;
use crate::text::{
    chars_of, digit_value, has_prefix_at, is_ascii_digit_char, is_whitespace, is_ws,
    starts_with, trim, trim_range, trim_start, trim_start_from, ascii_digit_value, digit_char,
    lemma_nat_digits_ascii, lemma_ws_prefix_len_char, nat_digits,
};

verus! {

/// Index of the first `c` in `s`, or `s.len()` when there is none.
pub open spec fn first_of(s: Seq<char>, c: char) -> nat
    decreases s.len(),
{
    if s.len() == 0 || s[0] == c {
        0
    } else {
        1 + first_of(s.drop_first(), c)
    }
}

/// `str::split(c)`: the pieces between the `c`s, one more than there are `c`s.
pub open spec fn split_on(s: Seq<char>, c: char) -> Seq<Seq<char>>
    decreases s.len(),
{
    let e = first_of(s, c);
    if e < s.len() {
        seq![s.take(e as int)] + split_on(s.skip(e + 1 as int), c)
    } else {
        seq![s]
    }
}

/// `str::contains` for a text pattern.
pub open spec fn contains_text(s: Seq<char>, p: Seq<char>) -> bool {
    exists|i: int| 0 <= i <= s.len() && starts_with(#[trigger] s.skip(i), p)
}

/// Number of leading characters that are not whitespace.
pub open spec fn word_len(s: Seq<char>) -> nat
    decreases s.len(),
{
    if s.len() > 0 && !is_ws(s[0]) {
        1 + word_len(s.drop_first())
    } else {
        0
    }
}

/// The first whitespace-separated word of `s` (empty when there is none).
pub open spec fn first_word(s: Seq<char>) -> Seq<char> {
    trim_start(s).take(word_len(trim_start(s)) as int)
}

/// The value of a run of ASCII digits.
pub open spec fn digits_value(d: Seq<char>) -> int
    decreases d.len(),
{
    if d.len() == 0 {
        0
    } else {
        10 * digits_value(d.drop_last()) + digit_value(d.last())
    }
}

/// `w` without one leading `+`.
pub open spec fn without_plus(w: Seq<char>) -> Seq<char> {
    if w.len() > 0 && w[0] == '+' {
        w.drop_first()
    } else {
        w
    }
}

pub open spec fn all_ascii_digits(d: Seq<char>) -> bool {
    forall|i: int| 0 <= i < d.len() ==> is_ascii_digit_char(#[trigger] d[i])
}

/// What `w.parse::<u32>().unwrap_or(0)` gives: an optional `+` and at least
/// one ASCII digit with a value that fits in a `u32`, otherwise 0.
pub open spec fn u32_or_zero(w: Seq<char>) -> int {
    let d = without_plus(w);
    if d.len() > 0 && all_ascii_digits(d) && digits_value(d) <= u32::MAX {
        digits_value(d)
    } else {
        0
    }
}

/// The counts named by the parts, in order: a part that mentions
/// "insertion" sets the first count, else one that mentions "deletion" sets
/// the second, each to the number that starts the part.
pub open spec fn tally(parts: Seq<Seq<char>>) -> (int, int)
    decreases parts.len(),
{
    if parts.len() == 0 {
        (0, 0)
    } else {
        let (ins, del) = tally(parts.drop_last());
        let p = parts.last();
        if contains_text(p, "insertion"@) {
            (u32_or_zero(first_word(p)), del)
        } else if contains_text(p, "deletion"@) {
            (ins, u32_or_zero(first_word(p)))
        } else {
            (ins, del)
        }
    }
}

/// The inserted and deleted line counts that `git diff --shortstat` reports.
pub open spec fn shortstat_counts_spec(text: Seq<char>) -> (int, int) {
    tally(split_on(trim(text), ','))
}

proof fn lemma_first_of_char(s: Seq<char>, c: char, k: int)
    requires
        0 <= k <= s.len(),
        forall|i: int| 0 <= i < k ==> #[trigger] s[i] != c,
        k < s.len() ==> s[k] == c,
    ensures
        first_of(s, c) == k,
    decreases s.len(),
{
    if k > 0 {
        assert forall|i: int| 0 <= i < k - 1 implies #[trigger] s.drop_first()[i] != c by {
            assert(s.drop_first()[i] == s[i + 1]);
        }
        lemma_first_of_char(s.drop_first(), c, k - 1);
    }
}

proof fn lemma_word_len_char(s: Seq<char>, k: int)
    requires
        0 <= k <= s.len(),
        forall|i: int| 0 <= i < k ==> !is_ws(#[trigger] s[i]),
        k < s.len() ==> is_ws(s[k]),
    ensures
        word_len(s) == k,
    decreases s.len(),
{
    if k > 0 {
        assert forall|i: int| 0 <= i < k - 1 implies !is_ws(#[trigger] s.drop_first()[i]) by {
            assert(s.drop_first()[i] == s[i + 1]);
        }
        lemma_word_len_char(s.drop_first(), k - 1);
    }
}

/// Whether `v[lo..hi]` contains `p`.
fn contains_at(v: &Vec<char>, lo: usize, hi: usize, p: &Vec<char>) -> (r: bool)
    requires
        lo <= hi <= v.len(),
    ensures
        r == contains_text(v@.subrange(lo as int, hi as int), p@),
{
    let ghost sub = v@.subrange(lo as int, hi as int);
    let mut i = lo;
    loop
        invariant
            lo <= i <= hi,
            hi <= v.len(),
            sub == v@.subrange(lo as int, hi as int),
            forall|j: int| 0 <= j < i - lo ==> !starts_with(#[trigger] sub.skip(j), p@),
        decreases hi - i,
    {
        let found = has_prefix_at(v, i, hi, p);
        assert(sub.skip(i - lo) =~= v@.subrange(i as int, hi as int));
        if found {
            return true;
        }
        if i == hi {
            return false;
        }
        i = i + 1;
    }
}

/// `u32_or_zero` of `v[lo..hi]`.
fn parse_u32_or_zero(v: &Vec<char>, lo: usize, hi: usize) -> (r: u32)
    requires
        lo <= hi <= v.len(),
    ensures
        r == u32_or_zero(v@.subrange(lo as int, hi as int)),
{
    let ghost w = v@.subrange(lo as int, hi as int);
    let start = if lo < hi && v[lo] == '+' {
        lo + 1
    } else {
        lo
    };
    let ghost d = v@.subrange(start as int, hi as int);
    assert(d =~= without_plus(w));
    if start == hi {
        return 0;
    }
    let mut val: u64 = 0;
    let mut over = false;
    let mut j = start;
    while j < hi
        invariant
            start <= j <= hi <= v.len(),
            d == v@.subrange(start as int, hi as int),
            w == v@.subrange(lo as int, hi as int),
            d == without_plus(w),
            forall|i: int| start <= i < j ==> is_ascii_digit_char(#[trigger] v@[i]),
            !over ==> val == digits_value(v@.subrange(start as int, j as int)) && val <= u32::MAX,
            over ==> digits_value(v@.subrange(start as int, j as int)) > u32::MAX,
        decreases hi - j,
    {
        let c = v[j];
        if !('0' <= c && c <= '9') {
            proof {
                assert(d[j - start] == c);
                assert(!is_ascii_digit_char(d[j - start]));
                assert(!all_ascii_digits(d));
            }
            return 0;
        }
        proof {
            let t = v@.subrange(start as int, j + 1);
            assert(t.drop_last() =~= v@.subrange(start as int, j as int));
            assert(t.last() == c);
            assert(0 <= digit_value(c) <= 9);
        }
        let dv = ascii_digit_value(c);
        if !over {
            if val > (4294967295u64 - dv) / 10 {
                over = true;
            } else {
                val = 10 * val + dv;
            }
        }
        j = j + 1;
    }
    proof {
        assert(v@.subrange(start as int, j as int) == d);
        assert forall|i: int| 0 <= i < d.len() implies is_ascii_digit_char(#[trigger] d[i]) by {
            assert(d[i] == v@[start + i]);
        }
        assert(all_ascii_digits(d));
    }
    if over {
        0
    } else {
        val as u32
    }
}

/// The first word of `v[lo..hi]`, as bounds.
fn first_word_range(v: &Vec<char>, lo: usize, hi: usize) -> (r: (usize, usize))
    requires
        lo <= hi <= v.len(),
    ensures
        lo <= r.0 <= r.1 <= hi,
        v@.subrange(r.0 as int, r.1 as int) == first_word(v@.subrange(lo as int, hi as int)),
{
    let a = trim_start_from(v, lo, hi);
    let mut b = a;
    while b < hi && !is_whitespace(v[b])
        invariant
            a <= b <= hi <= v.len(),
            forall|i: int| a <= i < b ==> !is_ws(#[trigger] v@[i]),
        decreases hi - b,
    {
        b = b + 1;
    }
    proof {
        let t = v@.subrange(a as int, hi as int);
        assert forall|i: int| 0 <= i < b - a implies !is_ws(#[trigger] t[i]) by {
            assert(t[i] == v@[a + i]);
        }
        if b < hi {
            assert(t[b - a] == v@[b as int]);
        }
        lemma_word_len_char(t, b - a);
        assert(t.take(b - a) =~= v@.subrange(a as int, b as int));
    }
    (a, b)
}

/// The inserted and deleted line counts in the output of
/// `git diff --shortstat`, 0 for a count that is missing or not a `u32`.
pub fn shortstat_counts(text: &str) -> (r: (u32, u32))
    ensures
        (r.0 as int, r.1 as int) == shortstat_counts_spec(text@),
{
    proof {
        reveal_strlit("insertion");
        reveal_strlit("deletion");
    }
    let ins_word = vec!['i', 'n', 's', 'e', 'r', 't', 'i', 'o', 'n'];
    let del_word = vec!['d', 'e', 'l', 'e', 't', 'i', 'o', 'n'];
    assert(ins_word@ =~= "insertion"@);
    assert(del_word@ =~= "deletion"@);
    let v = chars_of(text);
    let (a, b) = trim_range(&v, 0, v.len());
    assert(v@.subrange(0, v@.len() as int) =~= v@);
    assert(v@.subrange(a as int, b as int) == trim(text@));
    let ghost whole = v@.subrange(a as int, b as int);
    let ghost mut done: Seq<Seq<char>> = Seq::empty();
    let mut ins: u32 = 0;
    let mut del: u32 = 0;
    let mut pos = a;
    assert(done + split_on(v@.subrange(pos as int, b as int), ',') =~= split_on(whole, ','));
    loop
        invariant
            a <= pos <= b <= v.len(),
            whole == v@.subrange(a as int, b as int),
            whole == trim(text@),
            ins_word@ == "insertion"@,
            del_word@ == "deletion"@,
            done + split_on(v@.subrange(pos as int, b as int), ',') == split_on(whole, ','),
            (ins as int, del as int) == tally(done),
        decreases b - pos,
    {
        let ghost rest = v@.subrange(pos as int, b as int);
        let mut e = pos;
        while e < b && v[e] != ','
            invariant
                pos <= e <= b <= v.len(),
                forall|i: int| pos <= i < e ==> v@[i] != ',',
            decreases b - e,
        {
            e = e + 1;
        }
        proof {
            assert forall|i: int| 0 <= i < e - pos implies #[trigger] rest[i] != ',' by {
                assert(rest[i] == v@[pos + i]);
            }
            if e < b {
                assert(rest[e - pos] == v@[e as int]);
            }
            lemma_first_of_char(rest, ',', e - pos);
        }
        let ghost part = v@.subrange(pos as int, e as int);
        if contains_at(&v, pos, e, &ins_word) {
            let (wa, wb) = first_word_range(&v, pos, e);
            ins = parse_u32_or_zero(&v, wa, wb);
        } else if contains_at(&v, pos, e, &del_word) {
            let (wa, wb) = first_word_range(&v, pos, e);
            del = parse_u32_or_zero(&v, wa, wb);
        }
        proof {
            let nd = done.push(part);
            assert(nd.drop_last() =~= done);
            assert(nd.last() == part);
            if e < b {
                assert(rest.take(e - pos) =~= part);
                assert(rest.skip(e - pos + 1) =~= v@.subrange(e + 1, b as int));
                assert(nd + split_on(v@.subrange(e + 1, b as int), ',') =~= done + split_on(
                    rest,
                    ',',
                ));
            } else {
                assert(part =~= rest);
                assert(split_on(rest, ',') == seq![rest]);
                assert(nd =~= done + split_on(rest, ','));
            }
            done = nd;
        }
        if e < b {
            pos = e + 1;
        } else {
            assert(done =~= split_on(whole, ','));
            return (ins, del);
        }
    }
}

// ---------------------------------------------------------------------------
// What the counts are for git's own report
// ---------------------------------------------------------------------------

/// The line `git diff --shortstat` prints for changes in `files` files with
/// `insertions` inserted and `deletions` deleted lines.
pub open spec fn shortstat_report(files: nat, insertions: nat, deletions: nat) -> Seq<char> {
    " "@ + nat_digits(files) + " files changed, "@ + nat_digits(insertions) + " insertions(+), "@
        + nat_digits(deletions) + " deletions(-)\n"@
}

proof fn lemma_digits_value(n: nat)
    ensures
        digits_value(nat_digits(n)) == n,
    decreases n,
{
    if n >= 10 {
        lemma_digits_value(n / 10);
        let d = nat_digits(n / 10).push(digit_char((n % 10) as int));
        assert(nat_digits(n) == d);
        assert(d.drop_last() =~= nat_digits(n / 10));
        assert(d.last() == digit_char((n % 10) as int));
        assert(digit_value(digit_char((n % 10) as int)) == n % 10);
        assert(10 * (n / 10) + n % 10 == n);
        assert(digits_value(d) == 10 * digits_value(d.drop_last()) + digit_value(d.last()));
    } else {
        let d = seq![digit_char(n as int)];
        assert(nat_digits(n) == d);
        assert(d.drop_last() =~= Seq::<char>::empty());
        assert(digits_value(d.drop_last()) == 0);
        assert(digit_value(digit_char(n as int)) == n);
        assert(digits_value(d) == 10 * digits_value(d.drop_last()) + digit_value(d.last()));
    }
}

/// `s` holds no `c`: splitting at `c` after it gives it first.
proof fn lemma_split_front(a: Seq<char>, rest: Seq<char>, c: char)
    requires
        forall|i: int| 0 <= i < a.len() ==> #[trigger] a[i] != c,
    ensures
        split_on(a + seq![c] + rest, c) == seq![a] + split_on(rest, c),
{
    let s = a + seq![c] + rest;
    assert forall|i: int| 0 <= i < a.len() implies #[trigger] s[i] != c by {
        assert(s[i] == a[i]);
    }
    assert(s[a.len() as int] == c);
    lemma_first_of_char(s, c, a.len() as int);
    assert(s.take(a.len() as int) =~= a);
    assert(s.skip(a.len() + 1 as int) =~= rest);
}

proof fn lemma_split_none(a: Seq<char>, c: char)
    requires
        forall|i: int| 0 <= i < a.len() ==> #[trigger] a[i] != c,
    ensures
        split_on(a, c) == seq![a],
{
    lemma_first_of_char(a, c, a.len() as int);
}

/// A text in which every occurrence of the first character of `p` is at its
/// end or followed by something other than the second does not contain `p`.
proof fn lemma_not_contains(s: Seq<char>, p: Seq<char>)
    requires
        p.len() >= 2,
        forall|i: int|
            0 <= i < s.len() && #[trigger] s[i] == p[0] ==> i + 1 >= s.len() || s[i + 1] != p[1],
    ensures
        !contains_text(s, p),
{
    if contains_text(s, p) {
        let i = choose|i: int| 0 <= i <= s.len() && starts_with(#[trigger] s.skip(i), p);
        assert(s.skip(i).take(p.len() as int)[0] == s[i]);
        assert(s.skip(i).take(p.len() as int)[1] == s[i + 1]);
    }
}

proof fn lemma_contains_at(s: Seq<char>, p: Seq<char>, i: int)
    requires
        0 <= i,
        i + p.len() <= s.len(),
        s.subrange(i, i + p.len()) == p,
    ensures
        contains_text(s, p),
{
    assert(s.skip(i).take(p.len() as int) =~= s.subrange(i, i + p.len()));
    assert(starts_with(s.skip(i), p));
}

/// The number that starts ` {n} {word}`, a space, digits and a space.
proof fn lemma_count_part(n: nat, word: Seq<char>)
    requires
        n <= u32::MAX,
        word.len() > 0,
        word[0] == ' ',
    ensures
        u32_or_zero(first_word(" "@ + nat_digits(n) + word)) == n,
{
    reveal_strlit(" ");
    let d = nat_digits(n);
    let p = " "@ + d + word;
    lemma_nat_digits_ascii(n);
    assert(p[0] == ' ');
    assert(p[1] == d[0]);
    lemma_ws_prefix_len_char(p, 1);
    let t = trim_start(p);
    assert(t =~= d + word);
    assert forall|i: int| 0 <= i < d.len() implies !is_ws(#[trigger] t[i]) by {
        assert(t[i] == d[i]);
        assert(is_ascii_digit_char(d[i]));
    }
    assert(t[d.len() as int] == ' ');
    lemma_word_len_char(t, d.len() as int);
    assert(first_word(p) =~= d);
    assert(is_ascii_digit_char(d[0]));
    assert(without_plus(d) == d);
    lemma_digits_value(n);
}

spec fn files_word() -> Seq<char> {
    seq![' ', 'f', 'i', 'l', 'e', 's', ' ', 'c', 'h', 'a', 'n', 'g', 'e', 'd']
}

spec fn insertions_word() -> Seq<char> {
    seq![' ', 'i', 'n', 's', 'e', 'r', 't', 'i', 'o', 'n', 's', '(', '+', ')']
}

spec fn deletions_word() -> Seq<char> {
    seq![' ', 'd', 'e', 'l', 'e', 't', 'i', 'o', 'n', 's', '(', '-', ')']
}

/// The report as its three comma-separated parts between a leading space
/// and a final newline.
proof fn lemma_report_shape(files: nat, insertions: nat, deletions: nat)
    ensures
        shortstat_report(files, insertions, deletions) == seq![' '] + ((nat_digits(files)
            + files_word()) + seq![','] + ((seq![' '] + nat_digits(insertions) + insertions_word())
            + seq![','] + (seq![' '] + nat_digits(deletions) + deletions_word()))) + seq!['\n'],
{
    reveal_strlit(" ");
    reveal_strlit(" files changed, ");
    reveal_strlit(" insertions(+), ");
    reveal_strlit(" deletions(-)\n");
    assert(" "@ =~= seq![' ']);
    assert(" files changed, "@ =~= files_word() + seq![','] + seq![' ']);
    assert(" insertions(+), "@ =~= insertions_word() + seq![','] + seq![' ']);
    assert(" deletions(-)\n"@ =~= deletions_word() + seq!['\n']);
    assert(shortstat_report(files, insertions, deletions) =~= seq![' '] + ((nat_digits(files)
        + files_word()) + seq![','] + ((seq![' '] + nat_digits(insertions) + insertions_word())
        + seq![','] + (seq![' '] + nat_digits(deletions) + deletions_word()))) + seq!['\n']);
}

/// Trimming the report leaves it without its leading space and final newline.
proof fn lemma_report_trim(core: Seq<char>)
    requires
        core.len() > 0,
        is_ascii_digit_char(core[0]),
        core.last() == ')',
    ensures
        trim(seq![' '] + core + seq!['\n']) == core,
{
    let text = seq![' '] + core + seq!['\n'];
    assert(text[1] == core[0]);
    lemma_ws_prefix_len_char(text, 1);
    let ts = trim_start(text);
    assert(ts =~= core + seq!['\n']);
    assert(ts.last() == '\n');
    assert(ts.drop_last() =~= core);
    assert(crate::text::ws_suffix_len(core) == 0);
    assert(crate::text::ws_suffix_len(ts) == 1);
    assert(ts.take(ts.len() - 1) =~= core);
}

/// Reading git's own report gives back the counts it reports, for any counts
/// that fit in a `u32`.
pub proof fn law_shortstat_report(files: nat, insertions: nat, deletions: nat)
    requires
        insertions <= u32::MAX,
        deletions <= u32::MAX,
    ensures
        shortstat_counts_spec(shortstat_report(files, insertions, deletions)) == (
            insertions as int,
            deletions as int,
        ),
{
    reveal_strlit(" ");
    reveal_strlit("insertion");
    reveal_strlit("deletion");
    let f = nat_digits(files);
    let i = nat_digits(insertions);
    let d = nat_digits(deletions);
    lemma_nat_digits_ascii(files);
    lemma_nat_digits_ascii(insertions);
    lemma_nat_digits_ascii(deletions);
    let w0 = files_word();
    let w1 = insertions_word();
    let w2 = deletions_word();
    let p0 = f + w0;
    let p1 = seq![' '] + i + w1;
    let p2 = seq![' '] + d + w2;
    let core = p0 + seq![','] + (p1 + seq![','] + p2);
    lemma_report_shape(files, insertions, deletions);
    assert(core[0] == f[0]);
    assert(core.last() == w2.last());
    lemma_report_trim(core);
    // The three parts.
    assert forall|k: int| 0 <= k < p0.len() implies #[trigger] p0[k] != ',' by {
        if k < f.len() {
            assert(p0[k] == f[k]);
            assert(is_ascii_digit_char(f[k]));
        } else {
            assert(p0[k] == w0[k - f.len()]);
        }
    }
    assert forall|k: int| 0 <= k < p1.len() implies #[trigger] p1[k] != ',' by {
        if 1 <= k < 1 + i.len() {
            assert(p1[k] == i[k - 1]);
            assert(is_ascii_digit_char(i[k - 1]));
        } else if k >= 1 + i.len() {
            assert(p1[k] == w1[k - 1 - i.len()]);
        }
    }
    assert forall|k: int| 0 <= k < p2.len() implies #[trigger] p2[k] != ',' by {
        if 1 <= k < 1 + d.len() {
            assert(p2[k] == d[k - 1]);
            assert(is_ascii_digit_char(d[k - 1]));
        } else if k >= 1 + d.len() {
            assert(p2[k] == w2[k - 1 - d.len()]);
        }
    }
    lemma_split_front(p0, p1 + seq![','] + p2, ',');
    lemma_split_front(p1, p2, ',');
    lemma_split_none(p2, ',');
    let parts = seq![p0, p1, p2];
    assert(split_on(core, ',') =~= parts);
    // Which part names which count.
    let ins_w = "insertion"@;
    let del_w = "deletion"@;
    assert(ins_w[0] == 'i' && ins_w[1] == 'n');
    assert(del_w[0] == 'd' && del_w[1] == 'e');
    assert forall|k: int|
        0 <= k < p0.len() && #[trigger] p0[k] == ins_w[0] implies k + 1 >= p0.len() || p0[k + 1]
        != ins_w[1] by {
        if k < f.len() {
            assert(p0[k] == f[k]);
            assert(is_ascii_digit_char(f[k]));
        } else {
            assert(p0[k] == w0[k - f.len()]);
            if k + 1 < p0.len() {
                assert(p0[k + 1] == w0[k + 1 - f.len()]);
            }
        }
    }
    assert forall|k: int|
        0 <= k < p0.len() && #[trigger] p0[k] == del_w[0] implies k + 1 >= p0.len() || p0[k + 1]
        != del_w[1] by {
        if k < f.len() {
            assert(p0[k] == f[k]);
            assert(is_ascii_digit_char(f[k]));
        } else {
            assert(p0[k] == w0[k - f.len()]);
        }
    }
    assert forall|k: int|
        0 <= k < p2.len() && #[trigger] p2[k] == ins_w[0] implies k + 1 >= p2.len() || p2[k + 1]
        != ins_w[1] by {
        if 1 <= k < 1 + d.len() {
            assert(p2[k] == d[k - 1]);
            assert(is_ascii_digit_char(d[k - 1]));
        } else if k >= 1 + d.len() {
            assert(p2[k] == w2[k - 1 - d.len()]);
            if k + 1 < p2.len() {
                assert(p2[k + 1] == w2[k - d.len()]);
            }
        }
    }
    lemma_not_contains(p0, ins_w);
    lemma_not_contains(p0, del_w);
    lemma_not_contains(p2, ins_w);
    assert(p1.subrange(2 + i.len() as int, 11 + i.len() as int) =~= ins_w);
    lemma_contains_at(p1, ins_w, 2 + i.len() as int);
    assert(p2.subrange(2 + d.len() as int, 10 + d.len() as int) =~= del_w);
    lemma_contains_at(p2, del_w, 2 + d.len() as int);
    assert(p1 =~= " "@ + i + w1);
    assert(p2 =~= " "@ + d + w2);
    lemma_count_part(insertions, w1);
    lemma_count_part(deletions, w2);
    assert(parts.drop_last() =~= seq![p0, p1]);
    assert(seq![p0, p1].drop_last() =~= seq![p0]);
    assert(seq![p0].drop_last() =~= Seq::<Seq<char>>::empty());
    assert(tally(Seq::<Seq<char>>::empty()) == (0int, 0int));
    assert(tally(seq![p0]) == (0int, 0int));
    assert(tally(seq![p0, p1]) == (insertions as int, 0int));
    assert(tally(parts) == (insertions as int, deletions as int));
    assert(trim(shortstat_report(files, insertions, deletions)) == core);
}

} // verus!

use vstd::prelude::*;
use crate::text::{
    ascii_digit_value, chars_of, digit_value, first_newline, is_ascii_digit_char,
    lemma_first_newline_char, lemma_ws_prefix_len, slice_vec, string_of, trim, trim_range,
    trim_start_from, ws_prefix_len,
};

verus! {

/// Unicode decimal digits (general category `Nd`): what the `\d` class accepts.
pub open spec fn is_decimal_digit(c: char) -> bool {
    ||| '\u{30}' <= c <= '\u{39}'
    ||| '\u{660}' <= c <= '\u{669}'
    ||| '\u{6f0}' <= c <= '\u{6f9}'
    ||| '\u{7c0}' <= c <= '\u{7c9}'
    ||| '\u{966}' <= c <= '\u{96f}'
    ||| '\u{9e6}' <= c <= '\u{9ef}'
    ||| '\u{a66}' <= c <= '\u{a6f}'
    ||| '\u{ae6}' <= c <= '\u{aef}'
    ||| '\u{b66}' <= c <= '\u{b6f}'
    ||| '\u{be6}' <= c <= '\u{bef}'
    ||| '\u{c66}' <= c <= '\u{c6f}'
    ||| '\u{ce6}' <= c <= '\u{cef}'
    ||| '\u{d66}' <= c <= '\u{d6f}'
    ||| '\u{de6}' <= c <= '\u{def}'
    ||| '\u{e50}' <= c <= '\u{e59}'
    ||| '\u{ed0}' <= c <= '\u{ed9}'
    ||| '\u{f20}' <= c <= '\u{f29}'
    ||| '\u{1040}' <= c <= '\u{1049}'
    ||| '\u{1090}' <= c <= '\u{1099}'
    ||| '\u{17e0}' <= c <= '\u{17e9}'
    ||| '\u{1810}' <= c <= '\u{1819}'
    ||| '\u{1946}' <= c <= '\u{194f}'
    ||| '\u{19d0}' <= c <= '\u{19d9}'
    ||| '\u{1a80}' <= c <= '\u{1a89}'
    ||| '\u{1a90}' <= c <= '\u{1a99}'
    ||| '\u{1b50}' <= c <= '\u{1b59}'
    ||| '\u{1bb0}' <= c <= '\u{1bb9}'
    ||| '\u{1c40}' <= c <= '\u{1c49}'
    ||| '\u{1c50}' <= c <= '\u{1c59}'
    ||| '\u{a620}' <= c <= '\u{a629}'
    ||| '\u{a8d0}' <= c <= '\u{a8d9}'
    ||| '\u{a900}' <= c <= '\u{a909}'
    ||| '\u{a9d0}' <= c <= '\u{a9d9}'
    ||| '\u{a9f0}' <= c <= '\u{a9f9}'
    ||| '\u{aa50}' <= c <= '\u{aa59}'
    ||| '\u{abf0}' <= c <= '\u{abf9}'
    ||| '\u{ff10}' <= c <= '\u{ff19}'
    ||| '\u{104a0}' <= c <= '\u{104a9}'
    ||| '\u{10d30}' <= c <= '\u{10d39}'
    ||| '\u{10d40}' <= c <= '\u{10d49}'
    ||| '\u{11066}' <= c <= '\u{1106f}'
    ||| '\u{110f0}' <= c <= '\u{110f9}'
    ||| '\u{11136}' <= c <= '\u{1113f}'
    ||| '\u{111d0}' <= c <= '\u{111d9}'
    ||| '\u{112f0}' <= c <= '\u{112f9}'
    ||| '\u{11450}' <= c <= '\u{11459}'
    ||| '\u{114d0}' <= c <= '\u{114d9}'
    ||| '\u{11650}' <= c <= '\u{11659}'
    ||| '\u{116c0}' <= c <= '\u{116c9}'
    ||| '\u{116d0}' <= c <= '\u{116e3}'
    ||| '\u{11730}' <= c <= '\u{11739}'
    ||| '\u{118e0}' <= c <= '\u{118e9}'
    ||| '\u{11950}' <= c <= '\u{11959}'
    ||| '\u{11bf0}' <= c <= '\u{11bf9}'
    ||| '\u{11c50}' <= c <= '\u{11c59}'
    ||| '\u{11d50}' <= c <= '\u{11d59}'
    ||| '\u{11da0}' <= c <= '\u{11da9}'
    ||| '\u{11f50}' <= c <= '\u{11f59}'
    ||| '\u{16130}' <= c <= '\u{16139}'
    ||| '\u{16a60}' <= c <= '\u{16a69}'
    ||| '\u{16ac0}' <= c <= '\u{16ac9}'
    ||| '\u{16b50}' <= c <= '\u{16b59}'
    ||| '\u{16d70}' <= c <= '\u{16d79}'
    ||| '\u{1ccf0}' <= c <= '\u{1ccf9}'
    ||| '\u{1d7ce}' <= c <= '\u{1d7ff}'
    ||| '\u{1e140}' <= c <= '\u{1e149}'
    ||| '\u{1e2f0}' <= c <= '\u{1e2f9}'
    ||| '\u{1e4f0}' <= c <= '\u{1e4f9}'
    ||| '\u{1e5f1}' <= c <= '\u{1e5fa}'
    ||| '\u{1e950}' <= c <= '\u{1e959}'
    ||| '\u{1fbf0}' <= c <= '\u{1fbf9}'
}

pub fn is_decimal_digit_char(c: char) -> (r: bool)
    ensures
        r == is_decimal_digit(c),
{
    ('\u{30}' <= c && c <= '\u{39}')
        || ('\u{660}' <= c && c <= '\u{669}')
        || ('\u{6f0}' <= c && c <= '\u{6f9}')
        || ('\u{7c0}' <= c && c <= '\u{7c9}')
        || ('\u{966}' <= c && c <= '\u{96f}')
        || ('\u{9e6}' <= c && c <= '\u{9ef}')
        || ('\u{a66}' <= c && c <= '\u{a6f}')
        || ('\u{ae6}' <= c && c <= '\u{aef}')
        || ('\u{b66}' <= c && c <= '\u{b6f}')
        || ('\u{be6}' <= c && c <= '\u{bef}')
        || ('\u{c66}' <= c && c <= '\u{c6f}')
        || ('\u{ce6}' <= c && c <= '\u{cef}')
        || ('\u{d66}' <= c && c <= '\u{d6f}')
        || ('\u{de6}' <= c && c <= '\u{def}')
        || ('\u{e50}' <= c && c <= '\u{e59}')
        || ('\u{ed0}' <= c && c <= '\u{ed9}')
        || ('\u{f20}' <= c && c <= '\u{f29}')
        || ('\u{1040}' <= c && c <= '\u{1049}')
        || ('\u{1090}' <= c && c <= '\u{1099}')
        || ('\u{17e0}' <= c && c <= '\u{17e9}')
        || ('\u{1810}' <= c && c <= '\u{1819}')
        || ('\u{1946}' <= c && c <= '\u{194f}')
        || ('\u{19d0}' <= c && c <= '\u{19d9}')
        || ('\u{1a80}' <= c && c <= '\u{1a89}')
        || ('\u{1a90}' <= c && c <= '\u{1a99}')
        || ('\u{1b50}' <= c && c <= '\u{1b59}')
        || ('\u{1bb0}' <= c && c <= '\u{1bb9}')
        || ('\u{1c40}' <= c && c <= '\u{1c49}')
        || ('\u{1c50}' <= c && c <= '\u{1c59}')
        || ('\u{a620}' <= c && c <= '\u{a629}')
        || ('\u{a8d0}' <= c && c <= '\u{a8d9}')
        || ('\u{a900}' <= c && c <= '\u{a909}')
        || ('\u{a9d0}' <= c && c <= '\u{a9d9}')
        || ('\u{a9f0}' <= c && c <= '\u{a9f9}')
        || ('\u{aa50}' <= c && c <= '\u{aa59}')
        || ('\u{abf0}' <= c && c <= '\u{abf9}')
        || ('\u{ff10}' <= c && c <= '\u{ff19}')
        || ('\u{104a0}' <= c && c <= '\u{104a9}')
        || ('\u{10d30}' <= c && c <= '\u{10d39}')
        || ('\u{10d40}' <= c && c <= '\u{10d49}')
        || ('\u{11066}' <= c && c <= '\u{1106f}')
        || ('\u{110f0}' <= c && c <= '\u{110f9}')
        || ('\u{11136}' <= c && c <= '\u{1113f}')
        || ('\u{111d0}' <= c && c <= '\u{111d9}')
        || ('\u{112f0}' <= c && c <= '\u{112f9}')
        || ('\u{11450}' <= c && c <= '\u{11459}')
        || ('\u{114d0}' <= c && c <= '\u{114d9}')
        || ('\u{11650}' <= c && c <= '\u{11659}')
        || ('\u{116c0}' <= c && c <= '\u{116c9}')
        || ('\u{116d0}' <= c && c <= '\u{116e3}')
        || ('\u{11730}' <= c && c <= '\u{11739}')
        || ('\u{118e0}' <= c && c <= '\u{118e9}')
        || ('\u{11950}' <= c && c <= '\u{11959}')
        || ('\u{11bf0}' <= c && c <= '\u{11bf9}')
        || ('\u{11c50}' <= c && c <= '\u{11c59}')
        || ('\u{11d50}' <= c && c <= '\u{11d59}')
        || ('\u{11da0}' <= c && c <= '\u{11da9}')
        || ('\u{11f50}' <= c && c <= '\u{11f59}')
        || ('\u{16130}' <= c && c <= '\u{16139}')
        || ('\u{16a60}' <= c && c <= '\u{16a69}')
        || ('\u{16ac0}' <= c && c <= '\u{16ac9}')
        || ('\u{16b50}' <= c && c <= '\u{16b59}')
        || ('\u{16d70}' <= c && c <= '\u{16d79}')
        || ('\u{1ccf0}' <= c && c <= '\u{1ccf9}')
        || ('\u{1d7ce}' <= c && c <= '\u{1d7ff}')
        || ('\u{1e140}' <= c && c <= '\u{1e149}')
        || ('\u{1e2f0}' <= c && c <= '\u{1e2f9}')
        || ('\u{1e4f0}' <= c && c <= '\u{1e4f9}')
        || ('\u{1e5f1}' <= c && c <= '\u{1e5fa}')
        || ('\u{1e950}' <= c && c <= '\u{1e959}')
        || ('\u{1fbf0}' <= c && c <= '\u{1fbf9}')
}

// ---------------------------------------------------------------------------
// The grammar of an entry: leading whitespace, a title, and an optional year
// of four digits, in parentheses or not, after whitespace at the end.
//
// The title is the shortest run of characters other than '\n' after which the
// rest of the text is either only whitespace or whitespace, an optional '(',
// four digits, an optional ')' and only whitespace. When the text holds
// nothing but whitespace, the title is its last character other than '\n'.
// ---------------------------------------------------------------------------

/// End of the run of whitespace that starts at `t`.
pub open spec fn ws_run_end(h: Seq<char>, t: int) -> int {
    t + ws_prefix_len(h.skip(t))
}

/// Where the four year digits start when the text from `t` on is whitespace,
/// an optional '(', four digits, an optional ')' and trailing whitespace.
pub open spec fn year_group_at(h: Seq<char>, t: int) -> Option<int> {
    let a = ws_run_end(h, t);
    if a == t {
        None
    } else {
        let p = if a < h.len() && h[a] == '(' {
            a + 1
        } else {
            a
        };
        if p + 4 <= h.len() && is_decimal_digit(h[p]) && is_decimal_digit(h[p + 1])
            && is_decimal_digit(h[p + 2]) && is_decimal_digit(h[p + 3]) {
            let q0 = p + 4;
            let q = if q0 < h.len() && h[q0] == ')' {
                q0 + 1
            } else {
                q0
            };
            if ws_run_end(h, q) == h.len() {
                Some(p)
            } else {
                None
            }
        } else {
            None
        }
    }
}

/// A title may end at `t`: a year group or only whitespace follows.
pub open spec fn title_may_end(h: Seq<char>, t: int) -> bool {
    year_group_at(h, t) is Some || ws_run_end(h, t) == h.len()
}

/// The first `t` in `from..=last` at which the title may end.
pub open spec fn first_title_end(h: Seq<char>, from: int, last: int) -> Option<int>
    decreases last - from + 1,
{
    if from > last {
        None
    } else if title_may_end(h, from) {
        Some(from)
    } else {
        first_title_end(h, from + 1, last)
    }
}

/// The last index below `w` that does not hold '\n'.
pub open spec fn last_non_newline(h: Seq<char>, w: int) -> Option<int>
    decreases w,
{
    if w <= 0 {
        None
    } else if h[w - 1] != '\n' {
        Some(w - 1)
    } else {
        last_non_newline(h, w - 1)
    }
}

/// Where the title starts and ends, and where the year digits start, if the
/// text matches the entry grammar.
pub open spec fn entry_match(h: Seq<char>) -> Option<(int, int, Option<int>)> {
    let w = ws_run_end(h, 0);
    if w < h.len() {
        let e = w + first_newline(h.skip(w));
        match first_title_end(h, w + 1, e) {
            Some(t) => Some((w, t, year_group_at(h, t))),
            None => None,
        }
    } else {
        match last_non_newline(h, h.len() as int) {
            Some(k) => Some((k, k + 1, None)),
            None => None,
        }
    }
}

/// Index of the last '#'.
pub open spec fn last_hash(s: Seq<char>) -> Option<int>
    decreases s.len(),
{
    if s.len() == 0 {
        None
    } else if s.last() == '#' {
        Some(s.len() - 1)
    } else {
        last_hash(s.drop_last())
    }
}

/// The comment of an entry: from its last '#' to the end.
pub open spec fn comment_of(s: Seq<char>) -> Option<Seq<char>> {
    match last_hash(s) {
        Some(i) => Some(s.skip(i)),
        None => None,
    }
}

/// What the entry grammar is matched against: the text before the comment,
/// trimmed, or the whole text when there is no comment.
pub open spec fn entry_haystack(s: Seq<char>) -> Seq<char> {
    match last_hash(s) {
        Some(i) => trim(s.take(i)),
        None => s,
    }
}

/// The year that four digits spell, when all of them are ASCII digits.
pub open spec fn year_value(d: Seq<char>) -> Option<i64> {
    if d.len() == 4 && is_ascii_digit_char(d[0]) && is_ascii_digit_char(d[1])
        && is_ascii_digit_char(d[2]) && is_ascii_digit_char(d[3]) {
        Some(
            (1000 * digit_value(d[0]) + 100 * digit_value(d[1]) + 10 * digit_value(d[2])
                + digit_value(d[3])) as i64,
        )
    } else {
        None
    }
}

/// A watch list entry split into its parts.
#[derive(Debug)]
pub struct EntryParts {
    pub name: String,
    pub year: Option<i64>,
    pub comment: Option<String>,
}

/// Why an entry could not be split.
#[derive(Debug, PartialEq, Eq)]
pub enum EntryPartsError {
    MissingTitle,
}

impl EntryPartsError {
    pub fn message(&self) -> (r: String)
        ensures
            r@ == "Entry missing title"@,
    {
        String::from_str("Entry missing title")
    }
}

fn last_hash_index(v: &Vec<char>) -> (r: Option<usize>)
    ensures
        match r {
            Some(i) => last_hash(v@) == Some(i as int) && i < v.len(),
            None => last_hash(v@) is None,
        },
{
    let mut i = v.len();
    assert(v@.take(i as int) =~= v@);
    while i > 0
        invariant
            i <= v.len(),
            last_hash(v@) == last_hash(v@.take(i as int)),
        decreases i,
    {
        assert(v@.take(i as int).drop_last() =~= v@.take(i - 1));
        if v[i - 1] == '#' {
            return Some(i - 1);
        }
        i = i - 1;
    }
    None
}

fn ws_end(h: &Vec<char>, t: usize) -> (r: usize)
    requires
        t <= h.len(),
    ensures
        r == ws_run_end(h@, t as int),
        t <= r <= h.len(),
{
    let a = trim_start_from(h, t, h.len());
    proof {
        let sub = h@.subrange(t as int, h.len() as int);
        assert(h@.skip(t as int) =~= sub);
        lemma_ws_prefix_len(sub);
        assert(sub.skip(ws_prefix_len(sub) as int).len() == h.len() - a);
    }
    a
}

fn year_group(h: &Vec<char>, t: usize) -> (r: Option<usize>)
    requires
        t <= h.len(),
    ensures
        match r {
            Some(p) => year_group_at(h@, t as int) == Some(p as int) && p + 4 <= h.len(),
            None => year_group_at(h@, t as int) is None,
        },
{
    let n = h.len();
    let a = ws_end(h, t);
    if a == t {
        return None;
    }
    let p = if a < n && h[a] == '(' {
        a + 1
    } else {
        a
    };
    if p <= n && n - p >= 4 && is_decimal_digit_char(h[p]) && is_decimal_digit_char(h[p + 1])
        && is_decimal_digit_char(h[p + 2]) && is_decimal_digit_char(h[p + 3]) {
        let q0 = p + 4;
        let q = if q0 < n && h[q0] == ')' {
            q0 + 1
        } else {
            q0
        };
        if ws_end(h, q) == n {
            Some(p)
        } else {
            None
        }
    } else {
        None
    }
}

/// Title start, title end and year digit start of `h`, by the entry grammar.
pub fn match_entry(h: &Vec<char>) -> (r: Option<(usize, usize, Option<usize>)>)
    ensures
        match r {
            Some((a, b, y)) => entry_match(h@) == Some(
                (
                    a as int,
                    b as int,
                    match y {
                        Some(p) => Some(p as int),
                        None => None,
                    },
                ),
            ) && a < b <= h.len() && (y matches Some(p) ==> p + 4 <= h.len()),
            None => entry_match(h@) is None,
        },
{
    let n = h.len();
    let w = ws_end(h, 0);
    if w < n {
        let mut e = w;
        while e < n && h[e] != '\n'
            invariant
                w <= e <= n,
                n == h.len(),
                forall|i: int| w <= i < e ==> h@[i] != '\n',
            decreases n - e,
        {
            e = e + 1;
        }
        proof {
            let rest = h@.skip(w as int);
            assert forall|i: int| 0 <= i < e - w implies #[trigger] rest[i] != '\n' by {
                assert(rest[i] == h@[w + i]);
            }
            if e < n {
                assert(rest[e - w] == h@[e as int]);
            }
            lemma_first_newline_char(rest, e - w);
        }
        let mut t = w + 1;
        while t <= e
            invariant
                w < t <= e + 1,
                e <= n,
                n == h.len(),
                w == ws_run_end(h@, 0),
                w < n,
                e == w + first_newline(h@.skip(w as int)),
                first_title_end(h@, w + 1, e as int) == first_title_end(h@, t as int, e as int),
            decreases e + 1 - t,
        {
            let g = year_group(h, t);
            match g {
                Some(p) => {
                    return Some((w, t, Some(p)));
                },
                None => {},
            }
            if ws_end(h, t) == n {
                return Some((w, t, None));
            }
            t = t + 1;
        }
        None
    } else {
        let mut k = n;
        while k > 0
            invariant
                k <= n,
                n == h.len(),
                w == ws_run_end(h@, 0),
                w >= n,
                last_non_newline(h@, n as int) == last_non_newline(h@, k as int),
            decreases k,
        {
            if h[k - 1] != '\n' {
                return Some((k - 1, k, None));
            }
            k = k - 1;
        }
        None
    }
}

/// The year four digits spell, when all are ASCII digits.
fn parse_year(h: &Vec<char>, p: usize) -> (r: Option<i64>)
    requires
        p + 4 <= h.len(),
    ensures
        r == year_value(h@.subrange(p as int, p + 4)),
        r matches Some(y) ==> 0 <= y <= 9999,
{
    let ghost d = h@.subrange(p as int, p + 4);
    assert(d[0] == h@[p as int] && d[1] == h@[p + 1] && d[2] == h@[p + 2] && d[3] == h@[p + 3]);
    let (c0, c1, c2, c3) = (h[p], h[p + 1], h[p + 2], h[p + 3]);
    proof {
        assert(forall|c: char| is_ascii_digit_char(c) ==> 0 <= #[trigger] digit_value(c) <= 9);
    }
    if '0' <= c0 && c0 <= '9' && '0' <= c1 && c1 <= '9' && '0' <= c2 && c2 <= '9' && '0' <= c3
        && c3 <= '9' {
        let v = 1000 * ascii_digit_value(c0) + 100 * ascii_digit_value(c1) + 10
            * ascii_digit_value(c2) + ascii_digit_value(c3);
        Some(v as i64)
    } else {
        None
    }
}

impl EntryParts {
    /// Splits an entry into its title, its year and its comment: the comment
    /// runs from the last '#' to the end and is cut off first; the rest is
    /// matched against the entry grammar. Fails when no title is found.
    pub fn new(text: &str) -> (r: Result<EntryParts, EntryPartsError>)
        ensures
            ({
                let h = entry_haystack(text@);
                match r {
                    Ok(parts) => {
                        &&& entry_match(h) matches Some((a, b, y))
                        &&& parts.name@ == h.subrange(a, b)
                        &&& parts.year == match y {
                            Some(p) => year_value(h.subrange(p, p + 4)),
                            None => None,
                        }
                        &&& match parts.comment {
                            Some(c) => comment_of(text@) == Some(c@),
                            None => comment_of(text@) is None,
                        }
                    },
                    Err(e) => entry_match(h) is None && e == EntryPartsError::MissingTitle,
                }
            }),
            r matches Ok(parts) ==> parts.name@.len() > 0,
            r matches Ok(parts) ==> (parts.year matches Some(y) ==> 0 <= y <= 9999),
    {
        let v = chars_of(text);
        let mut comment: Option<String> = None;
        let h: Vec<char> = match last_hash_index(&v) {
            Some(i) => {
                let c = slice_vec(&v, i, v.len());
                assert(c@ =~= v@.skip(i as int));
                comment = Some(string_of(&c));
                let (a, b) = trim_range(&v, 0, i);
                assert(v@.subrange(0, i as int) =~= v@.take(i as int));
                slice_vec(&v, a, b)
            },
            None => slice_vec(&v, 0, v.len()),
        };
        assert(h@ =~= entry_haystack(text@));
        let mut name = String::new();
        let mut year: Option<i64> = None;
        match match_entry(&h) {
            Some((a, b, y)) => {
                let title = slice_vec(&h, a, b);
                name = string_of(&title);
                match y {
                    Some(p) => {
                        year = parse_year(&h, p);
                    },
                    None => {},
                }
            },
            None => {},
        }
        if name.as_str().is_empty() {
            Err(EntryPartsError::MissingTitle)
        } else {
            Ok(EntryParts { name, year, comment })
        }
    }
}

} // verus!

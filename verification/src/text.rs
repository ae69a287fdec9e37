use vstd::prelude::*;

verus! {

// ---------------------------------------------------------------------------
// Character classes
// ---------------------------------------------------------------------------

/// Unicode `White_Space`: what `char::is_whitespace` and the `\s` class accept.
pub open spec fn is_ws(c: char) -> bool {
    ||| '\t' <= c <= '\r'
    ||| c == ' '
    ||| c == '\u{85}'
    ||| c == '\u{a0}'
    ||| c == '\u{1680}'
    ||| '\u{2000}' <= c <= '\u{200a}'
    ||| c == '\u{2028}'
    ||| c == '\u{2029}'
    ||| c == '\u{202f}'
    ||| c == '\u{205f}'
    ||| c == '\u{3000}'
}

pub fn is_whitespace(c: char) -> (r: bool)
    ensures
        r == is_ws(c),
{
    ('\t' <= c && c <= '\r') || c == ' ' || c == '\u{85}' || c == '\u{a0}' || c == '\u{1680}'
        || ('\u{2000}' <= c && c <= '\u{200a}') || c == '\u{2028}' || c == '\u{2029}' || c
        == '\u{202f}' || c == '\u{205f}' || c == '\u{3000}'
}

pub open spec fn is_ascii_digit_char(c: char) -> bool {
    '0' <= c <= '9'
}

/// The value of an ASCII digit.
pub open spec fn digit_value(c: char) -> int {
    if c == '0' {
        0
    } else if c == '1' {
        1
    } else if c == '2' {
        2
    } else if c == '3' {
        3
    } else if c == '4' {
        4
    } else if c == '5' {
        5
    } else if c == '6' {
        6
    } else if c == '7' {
        7
    } else if c == '8' {
        8
    } else {
        9
    }
}

/// The ASCII digit for `d < 10`.
pub open spec fn digit_char(d: int) -> char {
    if d == 0 {
        '0'
    } else if d == 1 {
        '1'
    } else if d == 2 {
        '2'
    } else if d == 3 {
        '3'
    } else if d == 4 {
        '4'
    } else if d == 5 {
        '5'
    } else if d == 6 {
        '6'
    } else if d == 7 {
        '7'
    } else if d == 8 {
        '8'
    } else {
        '9'
    }
}

fn digit_for(d: u64) -> (c: char)
    requires
        d < 10,
    ensures
        c == digit_char(d as int),
{
    if d == 0 {
        '0'
    } else if d == 1 {
        '1'
    } else if d == 2 {
        '2'
    } else if d == 3 {
        '3'
    } else if d == 4 {
        '4'
    } else if d == 5 {
        '5'
    } else if d == 6 {
        '6'
    } else if d == 7 {
        '7'
    } else if d == 8 {
        '8'
    } else {
        '9'
    }
}

pub fn ascii_digit_value(c: char) -> (v: u64)
    requires
        is_ascii_digit_char(c),
    ensures
        v == digit_value(c),
{
    if c == '0' {
        0
    } else if c == '1' {
        1
    } else if c == '2' {
        2
    } else if c == '3' {
        3
    } else if c == '4' {
        4
    } else if c == '5' {
        5
    } else if c == '6' {
        6
    } else if c == '7' {
        7
    } else if c == '8' {
        8
    } else {
        9
    }
}

// ---------------------------------------------------------------------------
// UTF-8 byte lengths
// ---------------------------------------------------------------------------

/// Number of bytes of `c` in UTF-8.
pub open spec fn char_width(c: char) -> nat {
    if (c as u32) < 0x80 {
        1
    } else if (c as u32) < 0x800 {
        2
    } else if (c as u32) < 0x10000 {
        3
    } else {
        4
    }
}

/// Number of bytes of `s` in UTF-8: what `str::len` returns.
pub open spec fn byte_len(s: Seq<char>) -> nat
    decreases s.len(),
{
    if s.len() == 0 {
        0
    } else {
        byte_len(s.drop_last()) + char_width(s.last())
    }
}

pub fn width_of(c: char) -> (w: usize)
    ensures
        w == char_width(c),
{
    if (c as u32) < 0x80 {
        1
    } else if (c as u32) < 0x800 {
        2
    } else if (c as u32) < 0x10000 {
        3
    } else {
        4
    }
}

pub proof fn lemma_byte_len_concat(a: Seq<char>, b: Seq<char>)
    ensures
        byte_len(a + b) == byte_len(a) + byte_len(b),
    decreases b.len(),
{
    if b.len() == 0 {
        assert(a + b =~= a);
    } else {
        lemma_byte_len_concat(a, b.drop_last());
        assert((a + b).drop_last() =~= a + b.drop_last());
    }
}

pub proof fn lemma_byte_len_single(c: char)
    ensures
        byte_len(seq![c]) == char_width(c),
{
    assert(seq![c].drop_last() =~= Seq::<char>::empty());
    assert(byte_len(Seq::<char>::empty()) == 0);
}

pub proof fn lemma_ascii_width(c: char)
    requires
        (c as u32) < 0x80,
    ensures
        char_width(c) == 1,
        byte_len(seq![c]) == 1,
{
    lemma_byte_len_single(c);
}

pub proof fn lemma_digit_char(d: int)
    ensures
        is_ascii_digit_char(digit_char(d)),
        (digit_char(d) as u32) < 0x80,
        0 <= d < 10 ==> digit_value(digit_char(d)) == d,
{
}

pub proof fn lemma_byte_len_bounds(s: Seq<char>)
    ensures
        s.len() <= byte_len(s) <= 4 * s.len(),
    decreases s.len(),
{
    if s.len() > 0 {
        lemma_byte_len_bounds(s.drop_last());
    }
}

/// `byte_len(s)`, or `usize::MAX` where that does not fit.
pub fn byte_len_sat(s: &Vec<char>) -> (n: usize)
    ensures
        n as int == if byte_len(s@) <= usize::MAX {
            byte_len(s@) as int
        } else {
            usize::MAX as int
        },
{
    let mut n: usize = 0;
    let mut i: usize = 0;
    while i < s.len()
        invariant
            i <= s.len(),
            n as int == if byte_len(s@.take(i as int)) <= usize::MAX {
                byte_len(s@.take(i as int)) as int
            } else {
                usize::MAX as int
            },
        decreases s.len() - i,
    {
        assert(s@.take(i + 1).drop_last() =~= s@.take(i as int));
        let w = width_of(s[i]);
        if n <= usize::MAX - w {
            n = n + w;
        } else {
            n = usize::MAX;
        }
        i = i + 1;
    }
    assert(s@.take(i as int) =~= s@);
    n
}

/// `byte_len(s)`, exactly: four bytes per character at most always fit in 128 bits.
pub fn byte_len_wide(s: &Vec<char>) -> (n: u128)
    ensures
        n == byte_len(s@),
{
    let mut n: u128 = 0;
    let mut i: usize = 0;
    while i < s.len()
        invariant
            i <= s.len(),
            n == byte_len(s@.take(i as int)),
        decreases s.len() - i,
    {
        assert(s@.take(i + 1).drop_last() =~= s@.take(i as int));
        proof {
            lemma_byte_len_bounds(s@.take(i as int));
        }
        let w = width_of(s[i]);
        n = n + w as u128;
        i = i + 1;
    }
    assert(s@.take(i as int) =~= s@);
    n
}

// ---------------------------------------------------------------------------
// Building strings
// ---------------------------------------------------------------------------

/// Calls `String::push`. Claimed, as std documents it: the character is
/// appended at the end and nothing else changes.
#[verifier::external_body]
pub(crate) fn push_char(s: &mut String, c: char)
    ensures
        final(s)@ == old(s)@.push(c),
{
    s.push(c);
}

/// The characters of `s`, in order.
pub fn chars_of(s: &str) -> (v: Vec<char>)
    ensures
        v@ == s@,
{
    let mut v: Vec<char> = Vec::new();
    for c in it: s.chars()
        invariant
            v@ == it.seq().take(it.index() as int),
            it.seq() == s@,
    {
        v.push(c);
    }
    v
}

/// Appends the characters of `v` to `s`.
pub fn push_chars(s: &mut String, v: &Vec<char>)
    ensures
        final(s)@ == old(s)@ + v@,
{
    let ghost start = s@;
    let mut i: usize = 0;
    while i < v.len()
        invariant
            i <= v.len(),
            s@ == start + v@.take(i as int),
        decreases v.len() - i,
    {
        assert(v@.take(i + 1) =~= v@.take(i as int).push(v@[i as int]));
        push_char(s, v[i]);
        i = i + 1;
    }
    assert(v@.take(i as int) =~= v@);
}

pub fn string_of(v: &Vec<char>) -> (s: String)
    ensures
        s@ == v@,
{
    let mut s = String::new();
    push_chars(&mut s, v);
    s
}

// ---------------------------------------------------------------------------
// Decimal notation of integers
// ---------------------------------------------------------------------------

/// Decimal digits of `n`, most significant first, with no leading zeros.
pub open spec fn nat_digits(n: nat) -> Seq<char>
    decreases n,
{
    if n < 10 {
        seq![digit_char(n as int)]
    } else {
        nat_digits(n / 10).push(digit_char((n % 10) as int))
    }
}

/// What `format!("{}", n)` gives for an integer `n`.
pub open spec fn decimal(n: int) -> Seq<char> {
    if n < 0 {
        seq!['-'] + nat_digits((-n) as nat)
    } else {
        nat_digits(n as nat)
    }
}

fn push_nat(s: &mut String, n: u64)
    ensures
        final(s)@ == old(s)@ + nat_digits(n as nat),
    decreases n,
{
    if n >= 10 {
        push_nat(s, n / 10);
    }
    push_char(s, digit_for(n % 10));
}

/// Appends the decimal notation of `n`.
pub fn push_i64(s: &mut String, n: i64)
    ensures
        final(s)@ == old(s)@ + decimal(n as int),
{
    if n < 0 {
        push_char(s, '-');
        let m: u64 = if n == i64::MIN {
            9223372036854775808u64
        } else {
            (-n) as u64
        };
        push_nat(s, m);
        assert(final(s)@ =~= old(s)@ + decimal(n as int));
    } else {
        push_nat(s, n as u64);
    }
}

pub fn push_usize(s: &mut String, n: usize)
    ensures
        final(s)@ == old(s)@ + decimal(n as int),
{
    push_nat(s, n as u64);
}

pub proof fn lemma_nat_digits_ascii(n: nat)
    ensures
        1 <= nat_digits(n).len(),
        forall|i: int|
            0 <= i < nat_digits(n).len() ==> is_ascii_digit_char(#[trigger] nat_digits(n)[i]),
        byte_len(nat_digits(n)) == nat_digits(n).len(),
    decreases n,
{
    if n >= 10 {
        lemma_nat_digits_ascii(n / 10);
        let d = nat_digits(n / 10);
        lemma_byte_len_concat(d, seq![digit_char((n % 10) as int)]);
        assert(d.push(digit_char((n % 10) as int)) =~= d + seq![digit_char((n % 10) as int)]);
        lemma_digit_char((n % 10) as int);
        lemma_ascii_width(digit_char((n % 10) as int));
    } else {
        lemma_digit_char(n as int);
        lemma_ascii_width(digit_char(n as int));
    }
}

pub open spec fn pow10(k: nat) -> nat
    decreases k,
{
    if k == 0 {
        1
    } else {
        10 * pow10((k - 1) as nat)
    }
}

pub proof fn lemma_nat_digits_len(n: nat, k: nat)
    requires
        1 <= k,
        n < pow10(k),
    ensures
        nat_digits(n).len() <= k,
    decreases k,
{
    if n >= 10 {
        if k == 1 {
            assert(pow10(0) == 1);
            assert(false);
        }
        assert(pow10(k) == 10 * pow10((k - 1) as nat));
        lemma_nat_digits_len(n / 10, (k - 1) as nat);
    }
}

/// The decimal notation of an `i64` holds at most 20 single-byte characters.
pub proof fn lemma_decimal_i64(n: i64)
    ensures
        1 <= decimal(n as int).len() <= 20,
        byte_len(decimal(n as int)) == decimal(n as int).len(),
{
    assert(pow10(19) == 10000000000000000000) by {
        reveal_with_fuel(pow10, 20);
    }
    if n < 0 {
        lemma_nat_digits_len((-(n as int)) as nat, 19);
        lemma_nat_digits_ascii((-n) as nat);
        lemma_byte_len_concat(seq!['-'], nat_digits((-(n as int)) as nat));
        lemma_ascii_width('-');
    } else {
        lemma_nat_digits_len(n as nat, 19);
        lemma_nat_digits_ascii(n as nat);
    }
}

// ---------------------------------------------------------------------------
// Trimming
// ---------------------------------------------------------------------------

/// Number of leading whitespace characters.
pub open spec fn ws_prefix_len(s: Seq<char>) -> nat
    decreases s.len(),
{
    if s.len() > 0 && is_ws(s[0]) {
        1 + ws_prefix_len(s.drop_first())
    } else {
        0
    }
}

/// Number of trailing whitespace characters.
pub open spec fn ws_suffix_len(s: Seq<char>) -> nat
    decreases s.len(),
{
    if s.len() > 0 && is_ws(s.last()) {
        1 + ws_suffix_len(s.drop_last())
    } else {
        0
    }
}

/// `str::trim_start`.
pub open spec fn trim_start(s: Seq<char>) -> Seq<char> {
    s.skip(ws_prefix_len(s) as int)
}

/// `str::trim_end`.
pub open spec fn trim_end(s: Seq<char>) -> Seq<char> {
    s.take(s.len() - ws_suffix_len(s))
}

/// `str::trim`.
pub open spec fn trim(s: Seq<char>) -> Seq<char> {
    trim_end(trim_start(s))
}

pub proof fn lemma_ws_prefix_len(s: Seq<char>)
    ensures
        ws_prefix_len(s) <= s.len(),
        forall|i: int| 0 <= i < ws_prefix_len(s) ==> is_ws(#[trigger] s[i]),
        ws_prefix_len(s) < s.len() ==> !is_ws(s[ws_prefix_len(s) as int]),
    decreases s.len(),
{
    if s.len() > 0 && is_ws(s[0]) {
        lemma_ws_prefix_len(s.drop_first());
        assert forall|i: int| 0 <= i < ws_prefix_len(s) implies is_ws(#[trigger] s[i]) by {
            if i > 0 {
                assert(s[i] == s.drop_first()[i - 1]);
            }
        }
    }
}

pub proof fn lemma_ws_suffix_len(s: Seq<char>)
    ensures
        ws_suffix_len(s) <= s.len(),
        forall|i: int| s.len() - ws_suffix_len(s) <= i < s.len() ==> is_ws(#[trigger] s[i]),
        ws_suffix_len(s) < s.len() ==> !is_ws(s[s.len() - ws_suffix_len(s) - 1]),
    decreases s.len(),
{
    if s.len() > 0 && is_ws(s.last()) {
        lemma_ws_suffix_len(s.drop_last());
        assert forall|i: int| s.len() - ws_suffix_len(s) <= i < s.len() implies is_ws(
            #[trigger] s[i],
        ) by {
            if i < s.len() - 1 {
                assert(s[i] == s.drop_last()[i]);
            }
        }
    }
}

/// Whatever the characters, `k` is the leading whitespace count when exactly the
/// first `k` characters are whitespace.
pub proof fn lemma_ws_prefix_len_char(s: Seq<char>, k: int)
    requires
        0 <= k <= s.len(),
        forall|i: int| 0 <= i < k ==> is_ws(#[trigger] s[i]),
        k < s.len() ==> !is_ws(s[k]),
    ensures
        ws_prefix_len(s) == k,
    decreases s.len(),
{
    if k > 0 {
        assert forall|i: int| 0 <= i < k - 1 implies is_ws(#[trigger] s.drop_first()[i]) by {
            assert(s.drop_first()[i] == s[i + 1]);
        }
        lemma_ws_prefix_len_char(s.drop_first(), k - 1);
    }
}

pub proof fn lemma_ws_suffix_len_char(s: Seq<char>, k: int)
    requires
        0 <= k <= s.len(),
        forall|i: int| s.len() - k <= i < s.len() ==> is_ws(#[trigger] s[i]),
        k < s.len() ==> !is_ws(s[s.len() - k - 1]),
    ensures
        ws_suffix_len(s) == k,
    decreases s.len(),
{
    if k > 0 {
        let d = s.drop_last();
        assert forall|i: int| d.len() - (k - 1) <= i < d.len() implies is_ws(
            #[trigger] s.drop_last()[i],
        ) by {
            assert(s.drop_last()[i] == s[i]);
        }
        lemma_ws_suffix_len_char(s.drop_last(), k - 1);
    }
}

/// Bounds `(a, b)` with `v[a..b] == trim_start(v[lo..hi])`.
pub fn trim_start_from(v: &Vec<char>, lo: usize, hi: usize) -> (a: usize)
    requires
        lo <= hi <= v.len(),
    ensures
        lo <= a <= hi,
        v@.subrange(a as int, hi as int) == trim_start(v@.subrange(lo as int, hi as int)),
{
    let mut a = lo;
    while a < hi && is_whitespace(v[a])
        invariant
            lo <= a <= hi <= v.len(),
            forall|i: int| lo <= i < a ==> is_ws(#[trigger] v@[i]),
        decreases hi - a,
    {
        a = a + 1;
    }
    let ghost sub = v@.subrange(lo as int, hi as int);
    proof {
        assert forall|i: int| 0 <= i < a - lo implies is_ws(#[trigger] sub[i]) by {
            assert(sub[i] == v@[lo + i]);
        }
        lemma_ws_prefix_len_char(sub, a - lo);
        assert(sub.skip(a - lo) =~= v@.subrange(a as int, hi as int));
    }
    a
}

/// Bound `b` with `v[lo..b] == trim_end(v[lo..hi])`.
pub fn trim_end_from(v: &Vec<char>, lo: usize, hi: usize) -> (b: usize)
    requires
        lo <= hi <= v.len(),
    ensures
        lo <= b <= hi,
        v@.subrange(lo as int, b as int) == trim_end(v@.subrange(lo as int, hi as int)),
{
    let mut b = hi;
    while b > lo && is_whitespace(v[b - 1])
        invariant
            lo <= b <= hi <= v.len(),
            forall|i: int| b <= i < hi ==> is_ws(#[trigger] v@[i]),
        decreases b - lo,
    {
        b = b - 1;
    }
    let ghost sub = v@.subrange(lo as int, hi as int);
    proof {
        assert forall|i: int| sub.len() - (hi - b) <= i < sub.len() implies is_ws(
            #[trigger] sub[i],
        ) by {
            assert(sub[i] == v@[lo + i]);
        }
        if hi - b < sub.len() {
            assert(sub[sub.len() - (hi - b) - 1] == v@[b - 1]);
        }
        lemma_ws_suffix_len_char(sub, hi - b);
        assert(sub.take(sub.len() - (hi - b)) =~= v@.subrange(lo as int, b as int));
    }
    b
}

/// Bounds `(a, b)` with `v[a..b] == trim(v[lo..hi])`.
pub fn trim_range(v: &Vec<char>, lo: usize, hi: usize) -> (r: (usize, usize))
    requires
        lo <= hi <= v.len(),
    ensures
        lo <= r.0 <= r.1 <= hi,
        v@.subrange(r.0 as int, r.1 as int) == trim(v@.subrange(lo as int, hi as int)),
{
    let a = trim_start_from(v, lo, hi);
    let b = trim_end_from(v, a, hi);
    (a, b)
}

pub fn slice_vec(v: &Vec<char>, lo: usize, hi: usize) -> (r: Vec<char>)
    requires
        lo <= hi <= v.len(),
    ensures
        r@ == v@.subrange(lo as int, hi as int),
{
    let mut r: Vec<char> = Vec::new();
    let mut i = lo;
    while i < hi
        invariant
            lo <= i <= hi <= v.len(),
            r@ == v@.subrange(lo as int, i as int),
        decreases hi - i,
    {
        r.push(v[i]);
        i = i + 1;
        assert(r@ =~= v@.subrange(lo as int, i as int));
    }
    r
}

// ---------------------------------------------------------------------------
// Lines
// ---------------------------------------------------------------------------

/// Index of the first `'\n'` in `s`, or `s.len()` when there is none.
pub open spec fn first_newline(s: Seq<char>) -> nat
    decreases s.len(),
{
    if s.len() == 0 || s[0] == '\n' {
        0
    } else {
        1 + first_newline(s.drop_first())
    }
}

/// A line as `str::lines` yields it: one trailing `'\r'` is dropped.
pub open spec fn strip_cr(l: Seq<char>) -> Seq<char> {
    if l.len() > 0 && l.last() == '\r' {
        l.drop_last()
    } else {
        l
    }
}

/// `str::lines`: the pieces between `'\n'`s, each without a trailing `"\r"`;
/// no empty last line after a final `'\n'`. A last line that no `'\n'` ends keeps
/// its characters as they are.
pub open spec fn lines(s: Seq<char>) -> Seq<Seq<char>>
    decreases s.len(),
{
    if s.len() == 0 {
        Seq::empty()
    } else {
        let e = first_newline(s);
        if e < s.len() {
            seq![strip_cr(s.take(e as int))] + lines(s.skip(e + 1 as int))
        } else {
            seq![s]
        }
    }
}

pub proof fn lemma_first_newline(s: Seq<char>)
    ensures
        first_newline(s) <= s.len(),
        forall|i: int| 0 <= i < first_newline(s) ==> #[trigger] s[i] != '\n',
        first_newline(s) < s.len() ==> s[first_newline(s) as int] == '\n',
    decreases s.len(),
{
    if !(s.len() == 0 || s[0] == '\n') {
        lemma_first_newline(s.drop_first());
        assert forall|i: int| 0 <= i < first_newline(s) implies #[trigger] s[i] != '\n' by {
            if i > 0 {
                assert(s[i] == s.drop_first()[i - 1]);
            }
        }
    }
}

pub proof fn lemma_first_newline_char(s: Seq<char>, k: int)
    requires
        0 <= k <= s.len(),
        forall|i: int| 0 <= i < k ==> #[trigger] s[i] != '\n',
        k < s.len() ==> s[k] == '\n',
    ensures
        first_newline(s) == k,
    decreases s.len(),
{
    if k > 0 {
        assert forall|i: int| 0 <= i < k - 1 implies #[trigger] s.drop_first()[i] != '\n' by {
            assert(s.drop_first()[i] == s[i + 1]);
        }
        lemma_first_newline_char(s.drop_first(), k - 1);
    }
}

pub open spec fn vec_views(v: Seq<Vec<char>>) -> Seq<Seq<char>> {
    v.map_values(|l: Vec<char>| l@)
}

pub open spec fn string_views(v: Seq<String>) -> Seq<Seq<char>> {
    v.map_values(|l: String| l@)
}

/// The lines of `v`, as `str::lines` splits them.
pub fn lines_of(v: &Vec<char>) -> (r: Vec<Vec<char>>)
    ensures
        vec_views(r@) == lines(v@),
{
    let mut r: Vec<Vec<char>> = Vec::new();
    let mut pos: usize = 0;
    assert(v@.skip(0) =~= v@);
    assert(vec_views(r@) + lines(v@.skip(0)) =~= lines(v@));
    while pos < v.len()
        invariant
            pos <= v.len(),
            vec_views(r@) + lines(v@.skip(pos as int)) == lines(v@),
        decreases v.len() - pos,
    {
        let ghost rest = v@.skip(pos as int);
        let mut e = pos;
        while e < v.len() && v[e] != '\n'
            invariant
                pos <= e <= v.len(),
                forall|i: int| pos <= i < e ==> v@[i] != '\n',
            decreases v.len() - e,
        {
            e = e + 1;
        }
        proof {
            assert forall|i: int| 0 <= i < e - pos implies #[trigger] rest[i] != '\n' by {
                assert(rest[i] == v@[pos + i]);
            }
            if e < v.len() {
                assert(rest[e - pos] == v@[e as int]);
            }
            lemma_first_newline_char(rest, e - pos);
        }
        let mut end = e;
        if e < v.len() && end > pos && v[end - 1] == '\r' {
            end = end - 1;
        }
        let line = slice_vec(v, pos, end);
        let ghost old_r = r@;
        r.push(line);
        proof {
            assert(vec_views(r@) =~= vec_views(old_r).push(line@));
            if e < v.len() {
                assert(rest.take(e - pos) =~= v@.subrange(pos as int, e as int));
                assert(line@ =~= strip_cr(rest.take(e - pos)));
                assert(rest.skip(e - pos + 1) =~= v@.skip(e + 1));
                assert(lines(rest) == seq![line@] + lines(v@.skip(e + 1)));
                assert(vec_views(old_r) + lines(rest) =~= vec_views(r@) + lines(v@.skip(e + 1)));
            } else {
                assert(line@ =~= rest);
                assert(lines(rest) == seq![line@]);
                assert(v@.skip(v.len() as int) =~= Seq::<char>::empty());
                assert(vec_views(old_r) + lines(rest) =~= vec_views(r@) + lines(
                    v@.skip(v.len() as int),
                ));
            }
        }
        if e < v.len() {
            pos = e + 1;
        } else {
            pos = v.len();
        }
    }
    proof {
        assert(v@.skip(pos as int) =~= Seq::<char>::empty());
        assert(vec_views(r@) + Seq::<Seq<char>>::empty() =~= vec_views(r@));
    }
    r
}

// ---------------------------------------------------------------------------
// Prefixes and case
// ---------------------------------------------------------------------------

pub open spec fn starts_with(s: Seq<char>, p: Seq<char>) -> bool {
    p.len() <= s.len() && s.take(p.len() as int) == p
}

/// Whether `v[lo..hi]` starts with `p`.
pub fn has_prefix_at(v: &Vec<char>, lo: usize, hi: usize, p: &Vec<char>) -> (r: bool)
    requires
        lo <= hi <= v.len(),
    ensures
        r == starts_with(v@.subrange(lo as int, hi as int), p@),
{
    let ghost sub = v@.subrange(lo as int, hi as int);
    if p.len() > hi - lo {
        return false;
    }
    let mut i: usize = 0;
    while i < p.len()
        invariant
            p.len() <= hi - lo,
            lo <= hi <= v.len(),
            sub == v@.subrange(lo as int, hi as int),
            i <= p.len(),
            forall|j: int| 0 <= j < i ==> v@[lo + j] == p@[j],
        decreases p.len() - i,
    {
        if v[lo + i] != p[i] {
            proof {
                assert(sub.take(p.len() as int)[i as int] == v@[lo + i]);
            }
            return false;
        }
        i = i + 1;
    }
    assert(sub.take(p.len() as int) =~= p@);
    true
}

/// ASCII lower case of `c`; other characters stay.
pub open spec fn ascii_lower(c: char) -> char {
    if 'A' <= c <= 'Z' {
        ((c as u32) + 32) as char
    } else {
        c
    }
}

/// `str::eq_ignore_ascii_case`.
pub open spec fn eq_ignore_ascii_case(a: Seq<char>, b: Seq<char>) -> bool {
    a.len() == b.len() && forall|i: int|
        0 <= i < a.len() ==> ascii_lower(#[trigger] a[i]) == ascii_lower(b[i])
}

pub fn to_ascii_lower(c: char) -> (r: char)
    ensures
        r == ascii_lower(c),
{
    if 'A' <= c && c <= 'Z' {
        let u = (c as u32) + 32;
        assert(u < 0xD800);
        char_from_ascii(u as u8)
    } else {
        c
    }
}

fn char_from_ascii(b: u8) -> (c: char)
    requires
        b < 128,
    ensures
        c as u32 == b as u32,
{
    b as char
}

pub fn eq_ignore_case(a: &Vec<char>, b: &Vec<char>) -> (r: bool)
    ensures
        r == eq_ignore_ascii_case(a@, b@),
{
    if a.len() != b.len() {
        return false;
    }
    let mut i: usize = 0;
    while i < a.len()
        invariant
            a.len() == b.len(),
            i <= a.len(),
            forall|j: int| 0 <= j < i ==> ascii_lower(#[trigger] a@[j]) == ascii_lower(b@[j]),
        decreases a.len() - i,
    {
        if to_ascii_lower(a[i]) != to_ascii_lower(b[i]) {
            return false;
        }
        i = i + 1;
    }
    true
}

// ---------------------------------------------------------------------------
// Filling a budget with pieces
// ---------------------------------------------------------------------------

/// The pieces one after the other.
pub open spec fn concat(ps: Seq<Seq<char>>) -> Seq<char>
    decreases ps.len(),
{
    if ps.len() == 0 {
        Seq::empty()
    } else {
        concat(ps.drop_last()) + ps.last()
    }
}

/// How many of the pieces, taken in order from the first, fit within `budget`
/// bytes after `used` bytes: the first piece that would go over stops the count.
pub open spec fn fit_count(ps: Seq<Seq<char>>, used: int, budget: int) -> nat
    decreases ps.len(),
{
    if ps.len() == 0 || used + byte_len(ps[0]) > budget {
        0
    } else {
        1 + fit_count(ps.drop_first(), used + byte_len(ps[0]), budget)
    }
}

pub proof fn lemma_concat_take_step(ps: Seq<Seq<char>>, i: int)
    requires
        0 <= i < ps.len(),
    ensures
        concat(ps.take(i + 1)) == concat(ps.take(i)) + ps[i],
{
    assert(ps.take(i + 1).drop_last() =~= ps.take(i));
}

/// Where the first `i` pieces fit, the count from the start is `i` more than
/// the count from piece `i` on.
pub proof fn lemma_fit_count_step(ps: Seq<Seq<char>>, used: int, budget: int, i: int)
    requires
        0 <= i <= ps.len(),
        forall|j: int| 0 <= j < i ==> used + byte_len(concat(#[trigger] ps.take(j + 1))) <= budget,
    ensures
        fit_count(ps, used, budget) == i + fit_count(
            ps.skip(i),
            used + byte_len(concat(ps.take(i))),
            budget,
        ),
    decreases i,
{
    if i == 0 {
        assert(ps.skip(0) =~= ps);
        assert(ps.take(0) =~= Seq::<Seq<char>>::empty());
    } else {
        lemma_fit_count_step(ps, used, budget, i - 1);
        let rest = ps.skip(i - 1);
        let u = used + byte_len(concat(ps.take(i - 1)));
        lemma_concat_take_step(ps, i - 1);
        lemma_byte_len_concat(concat(ps.take(i - 1)), ps[i - 1]);
        assert(ps.take(i - 1 + 1) == ps.take(i));
        assert(rest[0] == ps[i - 1]);
        assert(rest.drop_first() =~= ps.skip(i));
    }
}

/// The count stops at piece `i` when that piece does not fit.
pub proof fn lemma_fit_count_stop(ps: Seq<Seq<char>>, used: int, budget: int, i: int)
    requires
        0 <= i < ps.len(),
        used + byte_len(concat(ps.take(i))) + byte_len(ps[i]) > budget,
    ensures
        fit_count(ps.skip(i), used + byte_len(concat(ps.take(i))), budget) == 0,
{
    assert(ps.skip(i)[0] == ps[i]);
}

pub proof fn lemma_fit_count_bound(ps: Seq<Seq<char>>, used: int, budget: int)
    ensures
        fit_count(ps, used, budget) <= ps.len(),
        fit_count(ps, used, budget) == 0 || used + byte_len(
            concat(ps.take(fit_count(ps, used, budget) as int)),
        ) <= budget,
    decreases ps.len(),
{
    if !(ps.len() == 0 || used + byte_len(ps[0]) > budget) {
        let u = used + byte_len(ps[0]);
        lemma_fit_count_bound(ps.drop_first(), u, budget);
        let k = fit_count(ps.drop_first(), u, budget);
        lemma_concat_front(ps, k + 1 as int);
        lemma_byte_len_concat(ps[0], concat(ps.drop_first().take(k as int)));
    }
}

/// Taking pieces from the front: the first piece, then the rest.
pub proof fn lemma_concat_front(ps: Seq<Seq<char>>, k: int)
    requires
        1 <= k <= ps.len(),
    ensures
        concat(ps.take(k)) == ps[0] + concat(ps.drop_first().take(k - 1)),
    decreases k,
{
    if k == 1 {
        assert(ps.take(1).drop_last() =~= Seq::<Seq<char>>::empty());
        assert(ps.drop_first().take(0) =~= Seq::<Seq<char>>::empty());
        assert(concat(Seq::<Seq<char>>::empty()) == Seq::<char>::empty());
        assert(ps.take(1).last() == ps[0]);
        assert(Seq::<char>::empty() + ps[0] =~= ps[0]);
        assert(concat(ps.take(1)) =~= ps[0]);
        assert(ps[0] + Seq::<char>::empty() =~= ps[0]);
    } else {
        lemma_concat_front(ps, k - 1);
        lemma_concat_take_step(ps, k - 1);
        lemma_concat_take_step(ps.drop_first(), k - 2);
        assert(ps.drop_first()[k - 2] == ps[k - 1]);
        assert(ps[0] + concat(ps.drop_first().take(k - 2)) + ps[k - 1] =~= ps[0] + (concat(
            ps.drop_first().take(k - 2),
        ) + ps[k - 1]));
    }
}

// ---------------------------------------------------------------------------
// Truncating at a byte length
// ---------------------------------------------------------------------------

/// How many characters from the start of `s` fit in `n` bytes.
pub open spec fn chars_within(s: Seq<char>, n: int) -> nat
    decreases s.len(),
{
    if s.len() == 0 || char_width(s[0]) > n {
        0
    } else {
        1 + chars_within(s.drop_first(), n - char_width(s[0]))
    }
}

/// The longest prefix of `s` of at most `n` bytes: what `String::truncate(n)`
/// leaves when `n` is a character boundary of `s`.
pub open spec fn bytes_prefix(s: Seq<char>, n: int) -> Seq<char> {
    s.take(chars_within(s, n) as int)
}

/// Byte offset `n` is the end of `s` or beyond, or falls between two characters.
pub open spec fn is_char_boundary_at(s: Seq<char>, n: int) -> bool {
    n >= byte_len(s) || exists|k: int| 0 <= k <= s.len() && byte_len(#[trigger] s.take(k)) == n
}

pub proof fn lemma_byte_len_take_step(s: Seq<char>, i: int)
    requires
        0 <= i < s.len(),
    ensures
        byte_len(s.take(i + 1)) == byte_len(s.take(i)) + char_width(s[i]),
{
    assert(s.take(i + 1).drop_last() =~= s.take(i));
}

pub proof fn lemma_byte_len_take_mono(s: Seq<char>, i: int, j: int)
    requires
        0 <= i <= j <= s.len(),
    ensures
        byte_len(s.take(i)) + (j - i) <= byte_len(s.take(j)),
    decreases j - i,
{
    if i < j {
        lemma_byte_len_take_mono(s, i, j - 1);
        lemma_byte_len_take_step(s, j - 1);
    }
}

pub proof fn lemma_byte_len_take_full(s: Seq<char>)
    ensures
        s.take(s.len() as int) == s,
        byte_len(s.take(s.len() as int)) == byte_len(s),
{
    assert(s.take(s.len() as int) =~= s);
}

/// The number of leading characters of `v` that fit in `n` bytes.
pub fn count_chars_within(v: &Vec<char>, n: usize) -> (k: usize)
    ensures
        k == chars_within(v@, n as int),
        k <= v.len(),
        byte_len(v@.take(k as int)) <= n,
        k < v.len() ==> byte_len(v@.take(k as int)) + char_width(v@[k as int]) > n,
{
    let mut i: usize = 0;
    let mut used: usize = 0;
    assert(v@.skip(0) =~= v@);
    assert(v@.take(0) =~= Seq::<char>::empty());
    loop
        invariant
            i <= v.len(),
            used == byte_len(v@.take(i as int)),
            used <= n,
            chars_within(v@, n as int) == i + chars_within(v@.skip(i as int), n - used),
        ensures
            i <= v.len(),
            used == byte_len(v@.take(i as int)),
            used <= n,
            chars_within(v@, n as int) == i,
            i < v.len() ==> used + char_width(v@[i as int]) > n,
        decreases v.len() - i,
    {
        if i >= v.len() {
            assert(v@.skip(i as int) =~= Seq::<char>::empty());
            break;
        }
        let w = width_of(v[i]);
        if w > n - used {
            assert(v@.skip(i as int)[0] == v@[i as int]);
            break;
        }
        proof {
            let rest = v@.skip(i as int);
            assert(rest[0] == v@[i as int]);
            assert(rest.drop_first() =~= v@.skip(i + 1));
            lemma_byte_len_take_step(v@, i as int);
        }
        used = used + w;
        i = i + 1;
    }
    i
}

pub proof fn lemma_chars_within_boundary(s: Seq<char>, n: int, k: int)
    requires
        0 <= k <= s.len(),
        byte_len(s.take(k)) <= n,
        k < s.len() ==> byte_len(s.take(k)) + char_width(s[k]) > n,
    ensures
        is_char_boundary_at(s, n) <==> (k == s.len() || byte_len(s.take(k)) == n),
{
    lemma_byte_len_take_full(s);
    if is_char_boundary_at(s, n) && k < s.len() && byte_len(s.take(k)) != n {
        lemma_byte_len_take_step(s, k);
        lemma_byte_len_take_mono(s, k + 1, s.len() as int);
        let j = choose|j: int| 0 <= j <= s.len() && byte_len(#[trigger] s.take(j)) == n;
        if j <= k {
            lemma_byte_len_take_mono(s, j, k);
        } else {
            lemma_byte_len_take_mono(s, k + 1, j);
        }
    }
    if k == s.len() || byte_len(s.take(k)) == n {
        if k < s.len() {
            assert(0 <= k <= s.len() && byte_len(s.take(k)) == n);
        }
    }
}

/// Whether byte offset `n` is a character boundary of `v` (or past its end).
pub fn on_char_boundary(v: &Vec<char>, n: usize) -> (r: bool)
    ensures
        r == is_char_boundary_at(v@, n as int),
{
    let k = count_chars_within(v, n);
    proof {
        lemma_chars_within_boundary(v@, n as int, k as int);
    }
    if k == v.len() {
        return true;
    }
    let pre = slice_vec(v, 0, k);
    assert(pre@ =~= v@.take(k as int));
    let b = byte_len_sat(&pre);
    b == n
}

/// `v` cut to its longest prefix of at most `n` bytes.
pub fn truncate_bytes(v: &Vec<char>, n: usize) -> (r: Vec<char>)
    ensures
        r@ == bytes_prefix(v@, n as int),
        byte_len(r@) <= n,
{
    let k = count_chars_within(v, n);
    let r = slice_vec(v, 0, k);
    assert(r@ =~= v@.take(k as int));
    r
}

} // verus!

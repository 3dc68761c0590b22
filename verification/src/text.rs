//! Text helpers: conversions between strings and character vectors, decimal and hexadecimal
//! rendering, trimming, splitting, and decimal integers in text.
use vstd::prelude::*;

verus! {

// ---------------------------------------------------------------------------
// Conversions between `str`/`String` and character vectors.
// ---------------------------------------------------------------------------

/// The characters of `s`, in order (`str::chars` collected into a vector).
#[verifier::external_body]
pub(crate) fn chars_of(s: &str) -> (r: Vec<char>)
    ensures
        r@ == s@,
{
    s.chars().collect()
}

/// A `String` holding exactly the characters of `cs` (`Iterator::collect`).
#[verifier::external_body]
pub(crate) fn string_of(cs: &[char]) -> (r: String)
    ensures
        r@ == cs@,
{
    cs.iter().collect()
}

/// What `format!("{:?}", s)` renders for a string slice: the quoted, escaped form.
pub uninterp spec fn str_debug(s: Seq<char>) -> Seq<char>;

/// `<str as Debug>::fmt`, rendered through `format!("{:?}", s)`. Nothing is stated about the
/// escaping rules beyond naming the result; it depends on `s` alone.
#[verifier::external_body]
pub(crate) fn debug_quoted(s: &str) -> (r: String)
    ensures
        r@ == str_debug(s@),
{
    format!("{:?}", s)
}

/// Appends the characters of `s` to `out`.
pub(crate) fn push_str(out: &mut Vec<char>, s: &str)
    ensures
        final(out)@ == old(out)@ + s@,
{
    let cs = chars_of(s);
    push_chars(out, &cs);
}

/// Appends the characters of `cs` to `out`.
pub(crate) fn push_chars(out: &mut Vec<char>, cs: &[char])
    ensures
        final(out)@ == old(out)@ + cs@,
{
    let ghost start = out@;
    let mut i: usize = 0;
    while i < cs.len()
        invariant
            i <= cs.len(),
            out@ == start + cs@.take(i as int),
        decreases cs.len() - i,
    {
        out.push(cs[i]);
        i = i + 1;
        assert(cs@.take(i as int) == cs@.take((i - 1) as int).push(cs@[i - 1]));
    }
    assert(cs@.take(cs.len() as int) == cs@);
}

// ---------------------------------------------------------------------------
// Decimal and hexadecimal rendering.
// ---------------------------------------------------------------------------

/// The ASCII digit for `d` (0..=15; 10..=15 render as lowercase `a`..`f`).
pub open spec fn digit_char(d: int) -> char {
    if d < 10 {
        (d + 48) as char
    } else {
        (d + 87) as char
    }
}

/// Decimal digits of a natural number, most significant first, no leading zeros
/// (`0` renders as `"0"`).
pub open spec fn dec_digits(n: nat) -> Seq<char>
    decreases n,
{
    if n < 10 {
        seq![digit_char(n as int)]
    } else {
        dec_digits(n / 10).push(digit_char((n % 10) as int))
    }
}

/// Lowercase hexadecimal digits of a natural number, most significant first.
pub open spec fn hex_digits(n: nat) -> Seq<char>
    decreases n,
{
    if n < 16 {
        seq![digit_char(n as int)]
    } else {
        hex_digits(n / 16).push(digit_char((n % 16) as int))
    }
}

/// `c` repeated `n` times.
pub open spec fn repeat_char(c: char, n: int) -> Seq<char>
    decreases n,
{
    if n <= 0 {
        Seq::empty()
    } else {
        repeat_char(c, n - 1).push(c)
    }
}

/// What `format!("{:0w$}", v)` renders for an integer `v`: the sign (if negative), then zeros,
/// then the decimal digits of `|v|`, padded to at least `w` characters in all.
#[verifier::opaque]
pub open spec fn padded_int(v: int, w: int) -> Seq<char> {
    let digits = dec_digits(if v < 0 { (-v) as nat } else { v as nat });
    let sign: Seq<char> = if v < 0 { seq!['-'] } else { Seq::empty() };
    sign + repeat_char('0', w - sign.len() - digits.len()) + digits
}

/// What `format!("{}", v)` renders for an integer `v`.
#[verifier::opaque]
pub open spec fn int_text(v: int) -> Seq<char> {
    padded_int(v, 0)
}

/// What `format!("{}", b)` renders for a boolean.
#[verifier::opaque]
pub open spec fn bool_text(b: bool) -> Seq<char> {
    if b { seq!['t', 'r', 'u', 'e'] } else { seq!['f', 'a', 'l', 's', 'e'] }
}

fn digit(d: u8) -> (c: char)
    requires
        d < 16,
    ensures
        c == digit_char(d as int),
{
    match d {
        0 => '0',
        1 => '1',
        2 => '2',
        3 => '3',
        4 => '4',
        5 => '5',
        6 => '6',
        7 => '7',
        8 => '8',
        9 => '9',
        10 => 'a',
        11 => 'b',
        12 => 'c',
        13 => 'd',
        14 => 'e',
        _ => 'f',
    }
}

proof fn lemma_dec_digits_len(n: nat)
    ensures
        dec_digits(n).len() >= 1,
    decreases n,
{
    if n >= 10 {
        lemma_dec_digits_len(n / 10);
    }
}

/// Decimal digits of `n`.
pub(crate) fn dec_digits_of(n: u128) -> (r: Vec<char>)
    ensures
        r@ == dec_digits(n as nat),
    decreases n,
{
    if n < 10 {
        let mut v = Vec::new();
        v.push(digit(n as u8));
        v
    } else {
        let mut v = dec_digits_of(n / 10);
        v.push(digit((n % 10) as u8));
        v
    }
}

/// Lowercase hexadecimal digits of `n`.
pub(crate) fn hex_digits_of(n: u128) -> (r: Vec<char>)
    ensures
        r@ == hex_digits(n as nat),
    decreases n,
{
    if n < 16 {
        let mut v = Vec::new();
        v.push(digit(n as u8));
        v
    } else {
        let mut v = hex_digits_of(n / 16);
        v.push(digit((n % 16) as u8));
        v
    }
}

/// Appends `padded_int(v, w)` to `out`.
pub(crate) fn push_padded_int(out: &mut Vec<char>, v: i128, w: usize)
    requires
        v > i128::MIN,
        w <= 64,
    ensures
        final(out)@ == old(out)@ + padded_int(v as int, w as int),
{
    reveal(padded_int);
    let ghost start = out@;
    let mag: u128 = if v < 0 { (-v) as u128 } else { v as u128 };
    let digits = dec_digits_of(mag);
    let mut used: usize = 0;
    if v < 0 {
        out.push('-');
        used = 1;
    }
    proof { lemma_dec_digits_len(mag as nat); }
    let ghost sign: Seq<char> = if v < 0 { seq!['-'] } else { Seq::empty() };
    assert(out@ == start + sign);
    let mut k: usize = 0;
    let total: usize = if digits.len() < w { w - digits.len() } else { 0 };
    let zeros: usize = if total > used { total - used } else { 0 };
    while k < zeros
        invariant
            k <= zeros,
            out@ == start + sign + repeat_char('0', k as int),
        decreases zeros - k,
    {
        out.push('0');
        k = k + 1;
    }
    assert(zeros as int == w - sign.len() - digits@.len() || (zeros == 0 && w - sign.len() - digits@.len() <= 0));
    assert(repeat_char('0', zeros as int) == repeat_char('0', w - sign.len() - digits@.len())) by {
        if zeros == 0 {
            assert(repeat_char('0', w - sign.len() - digits@.len()) == Seq::<char>::empty());
        }
    }
    push_chars(out, &digits);
}

/// Appends `int_text(v)` to `out`.
pub(crate) fn push_int(out: &mut Vec<char>, v: i128)
    requires
        v > i128::MIN,
    ensures
        final(out)@ == old(out)@ + int_text(v as int),
{
    reveal(int_text);
    push_padded_int(out, v, 0);
}

/// Appends `bool_text(b)` to `out`.
pub(crate) fn push_bool(out: &mut Vec<char>, b: bool)
    ensures
        final(out)@ == old(out)@ + bool_text(b),
{
    reveal(bool_text);
    if b {
        out.push('t');
        out.push('r');
        out.push('u');
        out.push('e');
    } else {
        out.push('f');
        out.push('a');
        out.push('l');
        out.push('s');
        out.push('e');
    }
}

// ---------------------------------------------------------------------------
// Whitespace, trimming and splitting.
// ---------------------------------------------------------------------------

/// Unicode `White_Space` (what `char::is_whitespace` tests).
pub open spec fn is_white_space(c: char) -> bool {
    let u = c as u32;
    ||| 0x09 <= u <= 0x0d
    ||| u == 0x20
    ||| u == 0x85
    ||| u == 0xa0
    ||| u == 0x1680
    ||| 0x2000 <= u <= 0x200a
    ||| u == 0x2028
    ||| u == 0x2029
    ||| u == 0x202f
    ||| u == 0x205f
    ||| u == 0x3000
}

/// `char::is_whitespace`.
pub(crate) fn is_white_space_char(c: char) -> (r: bool)
    ensures
        r == is_white_space(c),
{
    let u = c as u32;
    (0x09 <= u && u <= 0x0d) || u == 0x20 || u == 0x85 || u == 0xa0 || u == 0x1680 || (0x2000
        <= u && u <= 0x200a) || u == 0x2028 || u == 0x2029 || u == 0x202f || u == 0x205f || u
        == 0x3000
}

/// `s` without its leading whitespace.
pub open spec fn trim_start(s: Seq<char>) -> Seq<char>
    decreases s.len(),
{
    if s.len() > 0 && is_white_space(s[0]) {
        trim_start(s.drop_first())
    } else {
        s
    }
}

/// `s` without its trailing whitespace.
pub open spec fn trim_end(s: Seq<char>) -> Seq<char>
    decreases s.len(),
{
    if s.len() > 0 && is_white_space(s.last()) {
        trim_end(s.drop_last())
    } else {
        s
    }
}

/// `str::trim`: leading and trailing whitespace removed.
pub open spec fn trim(s: Seq<char>) -> Seq<char> {
    trim_end(trim_start(s))
}

/// `str::trim_end_matches(c)`: every trailing `c` removed.
pub open spec fn trim_end_char(s: Seq<char>, c: char) -> Seq<char>
    decreases s.len(),
{
    if s.len() > 0 && s.last() == c {
        trim_end_char(s.drop_last(), c)
    } else {
        s
    }
}

/// Index of the first `c` in `s`, if any.
pub open spec fn first_index(s: Seq<char>, c: char) -> Option<int>
    decreases s.len(),
{
    if s.len() == 0 {
        None
    } else if s[0] == c {
        Some(0)
    } else {
        match first_index(s.drop_first(), c) {
            Some(k) => Some(k + 1),
            None => None,
        }
    }
}

/// `str::split(c)`: the pieces between occurrences of `c` (always at least one piece).
pub open spec fn split_on(s: Seq<char>, c: char) -> Seq<Seq<char>>
    decreases s.len(),
{
    match first_index(s, c) {
        Some(k) => if 0 <= k < s.len() {
            seq![s.take(k)] + split_on(s.skip(k + 1), c)
        } else {
            seq![s]
        },
        None => seq![s],
    }
}

pub proof fn lemma_first_index(s: Seq<char>, c: char)
    ensures
        match first_index(s, c) {
            Some(k) => 0 <= k < s.len() && s[k] == c && forall|j: int| 0 <= j < k ==> s[j] != c,
            None => forall|j: int| 0 <= j < s.len() ==> s[j] != c,
        },
    decreases s.len(),
{
    if s.len() > 0 {
        lemma_first_index(s.drop_first(), c);
        if s[0] != c {
            match first_index(s.drop_first(), c) {
                Some(k) => {
                    assert forall|j: int| 0 <= j < k + 1 implies s[j] != c by {
                        if j > 0 {
                            assert(s[j] == s.drop_first()[j - 1]);
                        }
                    }
                },
                None => {
                    assert forall|j: int| 0 <= j < s.len() implies s[j] != c by {
                        if j > 0 {
                            assert(s[j] == s.drop_first()[j - 1]);
                        }
                    }
                },
            }
        }
    }
}

/// Index (relative to `lo`) of the first `c` in `s[lo..hi]`.
pub(crate) fn find_char(s: &[char], lo: usize, hi: usize, c: char) -> (r: Option<usize>)
    requires
        lo <= hi <= s.len(),
    ensures
        match r {
            Some(k) => first_index(s@.subrange(lo as int, hi as int), c) == Some(k - lo) && lo <= k
                < hi,
            None => first_index(s@.subrange(lo as int, hi as int), c) is None,
        },
{
    let mut i = lo;
    while i < hi
        invariant
            lo <= i <= hi <= s.len(),
            forall|j: int| lo <= j < i ==> s@[j] != c,
        decreases hi - i,
    {
        if s[i] == c {
            proof {
                let sub = s@.subrange(lo as int, hi as int);
                lemma_first_index(sub, c);
                match first_index(sub, c) {
                    Some(k) => {
                        assert(sub[i - lo] == c);
                        assert(!(k < i - lo)) by {
                            if k < i - lo {
                                assert(s@[lo + k] != c);
                            }
                        }
                        assert(!(k > i - lo));
                    },
                    None => {
                        assert(sub[i - lo] == c);
                    },
                }
            }
            return Some(i);
        }
        i = i + 1;
    }
    proof {
        let sub = s@.subrange(lo as int, hi as int);
        lemma_first_index(sub, c);
        match first_index(sub, c) {
            Some(k) => {
                assert(s@[lo + k] == sub[k]);
            },
            None => {},
        }
    }
    None
}

/// Ranges `(start, end)` of `s` covered by `ranges`, as character sequences.
pub open spec fn range_texts(s: Seq<char>, ranges: Seq<(usize, usize)>) -> Seq<Seq<char>> {
    ranges.map_values(|r: (usize, usize)| s.subrange(r.0 as int, r.1 as int))
}

/// The pieces of `s[lo..hi]` between occurrences of `c`, as index ranges into `s`.
pub(crate) fn split_ranges(s: &[char], lo: usize, hi: usize, c: char) -> (r: Vec<(usize, usize)>)
    requires
        lo <= hi <= s.len(),
    ensures
        range_texts(s@, r@) == split_on(s@.subrange(lo as int, hi as int), c),
        forall|k: int| 0 <= k < r@.len() ==> lo <= #[trigger] r@[k].0 <= r@[k].1 <= hi,
{
    let mut out: Vec<(usize, usize)> = Vec::new();
    let mut pos = lo;
    loop
        invariant
            lo <= pos <= hi <= s.len(),
            range_texts(s@, out@) + split_on(s@.subrange(pos as int, hi as int), c) == split_on(
                s@.subrange(lo as int, hi as int),
                c,
            ),
            forall|k: int| 0 <= k < out@.len() ==> lo <= #[trigger] out@[k].0 <= out@[k].1 <= hi,
        decreases hi - pos,
    {
        let ghost sub = s@.subrange(pos as int, hi as int);
        match find_char(s, pos, hi, c) {
            Some(k) => {
                proof {
                    assert(sub.take(k - pos) == s@.subrange(pos as int, k as int));
                    assert(sub.skip(k - pos + 1) == s@.subrange(k + 1, hi as int));
                    assert(split_on(sub, c) == seq![s@.subrange(pos as int, k as int)] + split_on(
                        s@.subrange(k + 1, hi as int),
                        c,
                    ));
                    assert(range_texts(s@, out@.push((pos, k))) == range_texts(s@, out@).push(
                        s@.subrange(pos as int, k as int),
                    ));
                }
                out.push((pos, k));
                pos = k + 1;
            },
            None => {
                proof {
                    assert(split_on(sub, c) == seq![sub]);
                    assert(range_texts(s@, out@.push((pos, hi))) == range_texts(s@, out@).push(
                        sub,
                    ));
                }
                out.push((pos, hi));
                proof {
                    assert(range_texts(s@, out@) == split_on(s@.subrange(lo as int, hi as int), c));
                }
                return out;
            },
        }
    }
}

/// Bounds `(lo, hi)` with `s[lo..hi] == trim(s)`.
pub(crate) fn trim_range(s: &[char]) -> (r: (usize, usize))
    ensures
        r.0 <= r.1 <= s.len(),
        s@.subrange(r.0 as int, r.1 as int) == trim(s@),
{
    let mut lo: usize = 0;
    assert(s@.skip(0) == s@);
    while lo < s.len() && is_white_space_char(s[lo])
        invariant
            lo <= s.len(),
            trim_start(s@.skip(lo as int)) == trim_start(s@),
        decreases s.len() - lo,
    {
        assert(s@.skip(lo as int).drop_first() == s@.skip(lo + 1));
        lo = lo + 1;
    }
    assert(trim_start(s@) == s@.subrange(lo as int, s.len() as int));
    let mut hi: usize = s.len();
    while hi > lo && is_white_space_char(s[hi - 1])
        invariant
            lo <= hi <= s.len(),
            trim_end(s@.subrange(lo as int, hi as int)) == trim(s@),
        decreases hi,
    {
        assert(s@.subrange(lo as int, hi as int).drop_last() == s@.subrange(lo as int, hi - 1));
        hi = hi - 1;
    }
    (lo, hi)
}

/// End `e` with `s[lo..e] == trim_end_char(s[lo..hi], c)`.
pub(crate) fn trim_end_char_range(s: &[char], lo: usize, hi: usize, c: char) -> (e: usize)
    requires
        lo <= hi <= s.len(),
    ensures
        lo <= e <= hi,
        s@.subrange(lo as int, e as int) == trim_end_char(s@.subrange(lo as int, hi as int), c),
{
    let mut e = hi;
    while e > lo && s[e - 1] == c
        invariant
            lo <= e <= hi <= s.len(),
            trim_end_char(s@.subrange(lo as int, e as int), c) == trim_end_char(
                s@.subrange(lo as int, hi as int),
                c,
            ),
        decreases e,
    {
        assert(s@.subrange(lo as int, e as int).drop_last() == s@.subrange(lo as int, e - 1));
        e = e - 1;
    }
    e
}

// ---------------------------------------------------------------------------
// Integers in decimal text.
// ---------------------------------------------------------------------------

/// An ASCII decimal digit.
pub open spec fn is_digit(c: char) -> bool {
    48 <= c as u32 <= 57
}

/// Every character of `s` is an ASCII decimal digit.
pub open spec fn all_digits(s: Seq<char>) -> bool {
    forall|i: int| 0 <= i < s.len() ==> is_digit(#[trigger] s[i])
}

/// The value of a run of decimal digits (leading zeros allowed).
pub open spec fn digits_value(s: Seq<char>) -> nat
    decreases s.len(),
{
    if s.len() == 0 {
        0
    } else {
        digits_value(s.drop_last()) * 10 + ((s.last() as u32) - 48) as nat
    }
}

/// `<i64 as FromStr>::from_str`: an optional `+` or `-`, then at least one ASCII digit and
/// nothing else, with the value in range.
pub open spec fn parse_i64_text(s: Seq<char>) -> Option<i64> {
    let signed = s.len() > 0 && (s[0] == '+' || s[0] == '-');
    let body = if signed { s.drop_first() } else { s };
    let neg = signed && s[0] == '-';
    if body.len() > 0 && all_digits(body) {
        let v: int = if neg { -(digits_value(body) as int) } else { digits_value(body) as int };
        if i64::MIN <= v <= i64::MAX {
            Some(v as i64)
        } else {
            None
        }
    } else {
        None
    }
}

/// Accumulates the digits of `s[lo..hi]`; `None` when a non-digit occurs, and the value capped
/// just above `cap` when it exceeds `cap`.
pub(crate) fn digits_run_value(s: &[char], lo: usize, hi: usize, cap: u128) -> (r: Option<u128>)
    requires
        lo <= hi <= s.len(),
        cap < 0x1_0000_0000_0000_0000_0000_0000,
    ensures
        match r {
            Some(v) => all_digits(s@.subrange(lo as int, hi as int)) && (if digits_value(
                s@.subrange(lo as int, hi as int),
            ) <= cap {
                v == digits_value(s@.subrange(lo as int, hi as int))
            } else {
                v > cap
            }),
            None => !all_digits(s@.subrange(lo as int, hi as int)),
        },
{
    let mut v: u128 = 0;
    let mut i = lo;
    while i < hi
        invariant
            lo <= i <= hi <= s.len(),
            cap < 0x1_0000_0000_0000_0000_0000_0000,
            all_digits(s@.subrange(lo as int, i as int)),
            v <= cap ==> v == digits_value(s@.subrange(lo as int, i as int)),
            v > cap ==> digits_value(s@.subrange(lo as int, i as int)) > cap && v == cap + 1,
        decreases hi - i,
    {
        let ch = s[i];
        let u = ch as u32;
        if u < 48 || u > 57 {
            assert(s@.subrange(lo as int, hi as int)[i - lo] == ch);
            return None;
        }
        let ghost pre = s@.subrange(lo as int, i as int);
        let ghost next = s@.subrange(lo as int, i + 1);
        assert(next.drop_last() == pre);
        assert(all_digits(next)) by {
            assert forall|j: int| 0 <= j < next.len() implies is_digit(#[trigger] next[j]) by {
                if j < pre.len() {
                    assert(next[j] == pre[j]);
                }
            }
        }
        if v <= cap {
            let nv = v * 10 + (u - 48) as u128;
            v = if nv > cap { cap + 1 } else { nv };
        }
        i = i + 1;
    }
    Some(v)
}

/// `<i64 as FromStr>::from_str` on `s[lo..hi]`.
pub(crate) fn parse_i64(s: &[char], lo: usize, hi: usize) -> (r: Option<i64>)
    requires
        lo <= hi <= s.len(),
    ensures
        r == parse_i64_text(s@.subrange(lo as int, hi as int)),
{
    let ghost t = s@.subrange(lo as int, hi as int);
    let signed = lo < hi && (s[lo] == '+' || s[lo] == '-');
    let neg = signed && s[lo] == '-';
    let start = if signed { lo + 1 } else { lo };
    assert(s@.subrange(start as int, hi as int) == (if signed { t.drop_first() } else { t }));
    if start >= hi {
        return None;
    }
    match digits_run_value(s, start, hi, 0x8000_0000_0000_0000) {
        None => None,
        Some(v) => {
            if neg {
                if v <= 0x8000_0000_0000_0000 {
                    Some((-(v as i128)) as i64)
                } else {
                    None
                }
            } else {
                if v <= 0x7fff_ffff_ffff_ffff {
                    Some(v as i64)
                } else {
                    None
                }
            }
        },
    }
}

/// A fresh vector holding `s[a..b]`.
pub(crate) fn copy_range(s: &[char], a: usize, b: usize) -> (r: Vec<char>)
    requires
        a <= b <= s.len(),
    ensures
        r@ == s@.subrange(a as int, b as int),
{
    let mut out: Vec<char> = Vec::new();
    let mut i = a;
    while i < b
        invariant
            a <= i <= b <= s.len(),
            out@ == s@.subrange(a as int, i as int),
        decreases b - i,
    {
        out.push(s[i]);
        i = i + 1;
        assert(out@ == s@.subrange(a as int, i as int));
    }
    out
}

/// `prefix` followed by the `Debug` rendering of `cs` as a string.
pub(crate) fn quoted_message(prefix: &str, cs: &[char]) -> (r: String)
    ensures
        r@ == prefix@ + str_debug(cs@),
{
    let text = string_of(cs);
    let q = debug_quoted(text.as_str());
    let mut out = chars_of(prefix);
    let qc = chars_of(q.as_str());
    push_chars(&mut out, &qc);
    string_of(&out)
}

// ---------------------------------------------------------------------------
// Results and byte decoding.
// ---------------------------------------------------------------------------

/// An executable result agrees with a mathematical one: the same value, or an error whose text
/// is the expected message.
pub open spec fn same_result<T>(r: Result<T, String>, s: Result<T, Seq<char>>) -> bool {
    match r {
        Ok(v) => s == Ok::<T, Seq<char>>(v),
        Err(e) => s == Err::<T, Seq<char>>(e@),
    }
}

/// What `String::from_utf8_lossy` decodes from `b` (invalid sequences become U+FFFD).
pub uninterp spec fn utf8_lossy(b: Seq<u8>) -> Seq<char>;

/// The text bytes decode to: the UTF-8 decoding when the bytes are valid UTF-8, and the lossy
/// decoding (see [`utf8_lossy`]) otherwise.
pub open spec fn decoded_text(b: Seq<u8>) -> Seq<char> {
    if vstd::utf8::valid_utf8(b) {
        vstd::utf8::decode_utf8(b)
    } else {
        utf8_lossy(b)
    }
}

/// `String::from_utf8_lossy`, owned. The result is named by [`utf8_lossy`]; for valid UTF-8 it is
/// the decoded text, as the function's documentation states.
#[verifier::external_body]
pub(crate) fn lossy_string(b: &[u8]) -> (r: String)
    ensures
        r@ == utf8_lossy(b@),
        vstd::utf8::valid_utf8(b@) ==> r@ == vstd::utf8::decode_utf8(b@),
{
    String::from_utf8_lossy(b).into_owned()
}

// ---------------------------------------------------------------------------
// Facts about rendered numbers and splitting, used by the round-trip laws.
// ---------------------------------------------------------------------------

pub proof fn lemma_dec_digits(n: nat)
    ensures
        all_digits(dec_digits(n)),
        digits_value(dec_digits(n)) == n,
        dec_digits(n).len() >= 1,
    decreases n,
{
    if n < 10 {
        assert((digit_char(n as int) as u32) == n + 48);
        assert(dec_digits(n).drop_last() == Seq::<char>::empty());
        assert(digits_value(Seq::<char>::empty()) == 0);
        assert(dec_digits(n).last() == digit_char(n as int));
        assert(digits_value(dec_digits(n)) == n);
    } else {
        lemma_dec_digits(n / 10);
        let p = dec_digits(n / 10);
        let s = p.push(digit_char((n % 10) as int));
        assert(s.drop_last() == p);
        vstd::arithmetic::div_mod::lemma_fundamental_div_mod(n as int, 10);
        assert((digit_char((n % 10) as int) as u32) == (n % 10) + 48);
        assert((n / 10) * 10 + n % 10 == n) by (nonlinear_arith)
            requires
                n == 10 * (n / 10) + n % 10,
        ;
        assert(s.last() == digit_char((n % 10) as int));
        assert(digits_value(s) == digits_value(p) * 10 + (n % 10));
        assert(dec_digits(n) == s);
        assert forall|i: int| 0 <= i < s.len() implies is_digit(#[trigger] s[i]) by {
            if i < p.len() {
                assert(s[i] == p[i]);
            }
        }
    }
}

proof fn lemma_repeat_zero(k: int)
    ensures
        all_digits(repeat_char('0', k)),
        digits_value(repeat_char('0', k)) == 0,
    decreases k,
{
    if k > 0 {
        lemma_repeat_zero(k - 1);
        let p = repeat_char('0', k - 1);
        let s = p.push('0');
        assert(s.drop_last() == p);
        assert forall|i: int| 0 <= i < s.len() implies is_digit(#[trigger] s[i]) by {
            if i < p.len() {
                assert(s[i] == p[i]);
            }
        }
    }
}

proof fn lemma_zeros_prefix(z: Seq<char>, ds: Seq<char>)
    requires
        digits_value(z) == 0,
    ensures
        digits_value(z + ds) == digits_value(ds),
    decreases ds.len(),
{
    if ds.len() > 0 {
        lemma_zeros_prefix(z, ds.drop_last());
        assert((z + ds).drop_last() == z + ds.drop_last());
    } else {
        assert(z + ds == z);
    }
}

/// A non-negative number renders as a non-empty run of digits denoting it.
pub proof fn lemma_padded_nonneg(v: int, w: int)
    requires
        v >= 0,
    ensures
        all_digits(padded_int(v, w)),
        digits_value(padded_int(v, w)) == v,
        padded_int(v, w).len() >= 1,
{
    reveal(padded_int);
    lemma_dec_digits(v as nat);
    let ds = dec_digits(v as nat);
    let z = repeat_char('0', w - ds.len());
    lemma_repeat_zero(w - ds.len());
    lemma_zeros_prefix(z, ds);
    let s = Seq::<char>::empty() + z + ds;
    assert(s == z + ds);
    assert forall|i: int| 0 <= i < s.len() implies is_digit(#[trigger] s[i]) by {
        if i < z.len() {
            assert(s[i] == z[i]);
        } else {
            assert(s[i] == ds[i - z.len()]);
        }
    }
}

/// `c` is the first occurrence at `k`.
pub proof fn lemma_first_index_at(s: Seq<char>, c: char, k: int)
    requires
        0 <= k < s.len(),
        s[k] == c,
        forall|j: int| 0 <= j < k ==> s[j] != c,
    ensures
        first_index(s, c) == Some(k),
{
    lemma_first_index(s, c);
}

/// `c` does not occur.
pub proof fn lemma_first_index_none(s: Seq<char>, c: char)
    requires
        forall|j: int| 0 <= j < s.len() ==> s[j] != c,
    ensures
        first_index(s, c) is None,
{
    lemma_first_index(s, c);
}

/// Splitting at the first separator.
pub proof fn lemma_split_cons(a: Seq<char>, c: char, b: Seq<char>)
    requires
        forall|j: int| 0 <= j < a.len() ==> a[j] != c,
    ensures
        split_on(a + seq![c] + b, c) == seq![a] + split_on(b, c),
{
    let s = a + seq![c] + b;
    assert forall|j: int| 0 <= j < a.len() implies s[j] != c by {
        assert(s[j] == a[j]);
    }
    lemma_first_index_at(s, c, a.len() as int);
    assert(s.take(a.len() as int) == a);
    assert(s.skip(a.len() as int + 1) == b);
}

/// A piece with no separator splits into itself.
pub proof fn lemma_split_single(a: Seq<char>, c: char)
    requires
        forall|j: int| 0 <= j < a.len() ==> a[j] != c,
    ensures
        split_on(a, c) == seq![a],
{
    lemma_first_index_none(a, c);
}

/// A run of digits parses as the number it denotes, when that fits in `i64`.
pub proof fn lemma_parse_digits(s: Seq<char>)
    requires
        s.len() >= 1,
        all_digits(s),
        digits_value(s) <= i64::MAX,
    ensures
        parse_i64_text(s) == Some(digits_value(s) as i64),
{
    assert(is_digit(s[0]));
}

/// `c` does not occur in `s`.
pub open spec fn avoids(s: Seq<char>, c: char) -> bool {
    forall|j: int| 0 <= j < s.len() ==> s[j] != c
}

pub proof fn lemma_digits_avoid(s: Seq<char>, c: char)
    requires
        all_digits(s),
        !(48 <= c as u32 <= 57),
    ensures
        avoids(s, c),
{
    assert forall|j: int| 0 <= j < s.len() implies s[j] != c by {
        assert(is_digit(s[j]));
    }
}

pub proof fn lemma_avoids_concat(a: Seq<char>, b: Seq<char>, c: char)
    requires
        avoids(a, c),
        avoids(b, c),
    ensures
        avoids(a + b, c),
{
    assert forall|j: int| 0 <= j < (a + b).len() implies (a + b)[j] != c by {
        if j < a.len() {
            assert((a + b)[j] == a[j]);
        } else {
            assert((a + b)[j] == b[j - a.len()]);
        }
    }
}

} // verus!

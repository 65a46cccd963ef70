//! Scanning of source text held as a character array: line splitting,
//! whitespace trimming and splitting, and integer literals, each with the
//! meaning of the corresponding `str` operation of the standard library.
//!
//! Functions work on a window `cs[lo..hi]` of one character array, so the
//! parsers can walk a whole file without copying lines.

use vstd::prelude::*;
use vstd::string::StringExecFns;

verus! {

/// Unicode `White_Space` (what `char::is_whitespace` tests).
pub open spec fn is_ws(c: char) -> bool {
    let v = c as u32;
    ||| 0x9 <= v <= 0xD
    ||| v == 0x20
    ||| v == 0x85
    ||| v == 0xA0
    ||| v == 0x1680
    ||| 0x2000 <= v <= 0x200A
    ||| v == 0x2028
    ||| v == 0x2029
    ||| v == 0x202F
    ||| v == 0x205F
    ||| v == 0x3000
}

/// Number of leading whitespace characters.
pub open spec fn lead_ws(s: Seq<char>) -> nat
    decreases s.len(),
{
    if s.len() > 0 && is_ws(s[0]) {
        1 + lead_ws(s.drop_first())
    } else {
        0
    }
}

/// Number of trailing whitespace characters.
pub open spec fn trail_ws(s: Seq<char>) -> nat
    decreases s.len(),
{
    if s.len() > 0 && is_ws(s.last()) {
        1 + trail_ws(s.drop_last())
    } else {
        0
    }
}

/// `str::trim`: the text without leading and trailing whitespace.
pub open spec fn trim(s: Seq<char>) -> Seq<char> {
    let t = s.skip(lead_ws(s) as int);
    t.take(t.len() - trail_ws(t))
}

/// Index of the first `c` in `s`, if any.
pub open spec fn find_first(s: Seq<char>, c: char) -> Option<int>
    decreases s.len(),
{
    if s.len() == 0 {
        None
    } else if s[0] == c {
        Some(0)
    } else {
        match find_first(s.drop_first(), c) {
            Some(i) => Some(i + 1),
            None => None,
        }
    }
}

/// `str::lines`: pieces between `'\n'`, each without its `"\n"` or `"\r\n"`
/// ending; no empty piece after a final `'\n'`.
pub open spec fn lines_of(s: Seq<char>) -> Seq<Seq<char>>
    decreases s.len(),
{
    if s.len() == 0 {
        Seq::empty()
    } else {
        match find_first(s, '\n') {
            Some(i) => {
                proof {
                    lemma_find_first(s, '\n');
                }
                let l = s.take(i);
                let l2 = if l.len() > 0 && l.last() == '\r' { l.drop_last() } else { l };
                seq![l2] + lines_of(s.skip(i + 1))
            },
            None => seq![s],
        }
    }
}

/// Number of leading non-whitespace characters.
pub open spec fn word_len(s: Seq<char>) -> nat
    decreases s.len(),
{
    if s.len() > 0 && !is_ws(s[0]) {
        1 + word_len(s.drop_first())
    } else {
        0
    }
}

/// `str::split_whitespace`: the maximal runs of non-whitespace characters.
pub open spec fn words(s: Seq<char>) -> Seq<Seq<char>>
    decreases s.len(),
{
    if s.len() == 0 {
        Seq::empty()
    } else if is_ws(s[0]) {
        words(s.drop_first())
    } else {
        proof {
            lemma_word_len(s);
        }
        seq![s.take(word_len(s) as int)] + words(s.skip(word_len(s) as int))
    }
}

/// Value of a character as a digit in `radix` (`radix` itself when it is
/// not one), as `char::to_digit` reads it.
pub open spec fn digit_of(c: char, radix: int) -> int {
    let v = c as int;
    let d = if 48 <= v <= 57 {
        v - 48
    } else if 97 <= v <= 122 {
        v - 97 + 10
    } else if 65 <= v <= 90 {
        v - 65 + 10
    } else {
        radix
    };
    if d < radix { d } else { radix }
}

/// Every character is a digit in `radix`.
pub open spec fn all_digits(s: Seq<char>, radix: int) -> bool {
    forall|i: int| 0 <= i < s.len() ==> digit_of(#[trigger] s[i], radix) < radix
}

/// The number the digits spell in `radix`.
pub open spec fn digits_value(s: Seq<char>, radix: int) -> int
    decreases s.len(),
{
    if s.len() == 0 {
        0
    } else {
        digits_value(s.drop_last(), radix) * radix + digit_of(s.last(), radix)
    }
}

/// At least one digit in `radix`, spelling a number no larger than `max`.
pub open spec fn parse_digits(s: Seq<char>, radix: int, max: int) -> Option<int> {
    if s.len() > 0 && all_digits(s, radix) && digits_value(s, radix) <= max {
        Some(digits_value(s, radix))
    } else {
        None
    }
}

/// The unsigned `from_str_radix`: an optional `+`, then at least one digit;
/// `None` on any other character or above `max`.
pub open spec fn parse_unsigned(s: Seq<char>, radix: int, max: int) -> Option<int> {
    if s.len() > 0 && s[0] == '+' {
        parse_digits(s.drop_first(), radix, max)
    } else {
        parse_digits(s, radix, max)
    }
}

/// The signed decimal `from_str`: an optional `+` or `-`, then at least one
/// digit; `None` outside `min..=max`.
pub open spec fn parse_signed(s: Seq<char>, min: int, max: int) -> Option<int> {
    if s.len() > 0 && s[0] == '-' {
        match parse_digits(s.drop_first(), 10, -min) {
            Some(v) => Some(-v),
            None => None,
        }
    } else {
        parse_unsigned(s, 10, max)
    }
}

/// The first `c` found is a `c`, with none before it.
pub proof fn lemma_find_first(s: Seq<char>, c: char)
    ensures
        find_first(s, c) matches Some(i) ==> 0 <= i < s.len() && s[i] == c && forall|j: int| 0 <= j < i ==> s[j] != c,
        find_first(s, c) is None ==> forall|j: int| 0 <= j < s.len() ==> s[j] != c,
    decreases s.len(),
{
    if s.len() > 0 {
        lemma_find_first(s.drop_first(), c);
        if s[0] != c {
            assert forall|j: int| 1 <= j < s.len() implies s[j] == s.drop_first()[j - 1] by {}
        }
    }
}

/// A leading word is non-whitespace and ends at whitespace or the end.
pub proof fn lemma_word_len(s: Seq<char>)
    ensures
        word_len(s) <= s.len(),
        s.len() > 0 && !is_ws(s[0]) ==> word_len(s) >= 1,
        forall|j: int| 0 <= j < word_len(s) ==> !is_ws(s[j]),
        word_len(s) < s.len() ==> is_ws(s[word_len(s) as int]),
    decreases s.len(),
{
    if s.len() > 0 && !is_ws(s[0]) {
        lemma_word_len(s.drop_first());
        assert forall|j: int| 1 <= j < word_len(s) implies !is_ws(s[j]) by {
            assert(s[j] == s.drop_first()[j - 1]);
        }
    }
}

/// Counting leading whitespace by position.
pub proof fn lemma_lead_ws(s: Seq<char>, k: int)
    requires
        0 <= k <= s.len(),
        forall|j: int| 0 <= j < k ==> is_ws(s[j]),
        k == s.len() || !is_ws(s[k]),
    ensures
        lead_ws(s) == k,
    decreases k,
{
    if k > 0 {
        let d = s.drop_first();
        assert forall|j: int| 0 <= j < k - 1 implies is_ws(d[j]) by {
            assert(d[j] == s[j + 1]);
        }
        if k - 1 < d.len() {
            assert(d[k - 1] == s[k]);
        }
        lemma_lead_ws(d, k - 1);
    }
}

/// Counting trailing whitespace by position.
pub proof fn lemma_trail_ws(s: Seq<char>, k: int)
    requires
        0 <= k <= s.len(),
        forall|j: int| k <= j < s.len() ==> is_ws(s[j]),
        k == 0 || !is_ws(s[k - 1]),
    ensures
        trail_ws(s) == s.len() - k,
    decreases s.len() - k,
{
    if k < s.len() {
        let d = s.drop_last();
        assert forall|j: int| k <= j < d.len() implies is_ws(d[j]) by {
            assert(d[j] == s[j]);
        }
        if k > 0 {
            assert(d[k - 1] == s[k - 1]);
        }
        lemma_trail_ws(d, k);
    }
}

/// Counting a leading word by position.
pub proof fn lemma_word_len_at(s: Seq<char>, k: int)
    requires
        0 <= k <= s.len(),
        forall|j: int| 0 <= j < k ==> !is_ws(s[j]),
        k == s.len() || is_ws(s[k]),
    ensures
        word_len(s) == k,
    decreases k,
{
    if k > 0 {
        let d = s.drop_first();
        assert forall|j: int| 0 <= j < k - 1 implies !is_ws(d[j]) by {
            assert(d[j] == s[j + 1]);
        }
        if k - 1 < d.len() {
            assert(d[k - 1] == s[k]);
        }
        lemma_word_len_at(d, k - 1);
    }
}

/// Locating the first `c` by position.
pub proof fn lemma_find_first_at(s: Seq<char>, c: char, k: int)
    requires
        0 <= k <= s.len(),
        forall|j: int| 0 <= j < k ==> s[j] != c,
        k == s.len() || s[k] == c,
    ensures
        k < s.len() ==> find_first(s, c) == Some(k),
        k == s.len() ==> find_first(s, c) is None,
    decreases k,
{
    if k > 0 {
        let d = s.drop_first();
        assert forall|j: int| 0 <= j < k - 1 implies d[j] != c by {
            assert(d[j] == s[j + 1]);
        }
        if k - 1 < d.len() {
            assert(d[k - 1] == s[k]);
        }
        lemma_find_first_at(d, c, k - 1);
    }
}

/// `char::is_whitespace`.
pub fn is_whitespace(c: char) -> (b: bool)
    ensures
        b == is_ws(c),
{
    let v = c as u32;
    (0x9 <= v && v <= 0xD) || v == 0x20 || v == 0x85 || v == 0xA0 || v == 0x1680 || (0x2000 <= v && v <= 0x200A)
        || v == 0x2028 || v == 0x2029 || v == 0x202F || v == 0x205F || v == 0x3000
}

/// The bounds of `trim(cs[lo..hi])` within `cs`.
pub fn trim_bounds(cs: &[char], lo: usize, hi: usize) -> (r: (usize, usize))
    requires
        lo <= hi <= cs@.len(),
    ensures
        lo <= r.0 <= r.1 <= hi,
        cs@.subrange(r.0 as int, r.1 as int) == trim(cs@.subrange(lo as int, hi as int)),
{
    let ghost s = cs@.subrange(lo as int, hi as int);
    let mut a: usize = lo;
    while a < hi && is_whitespace(cs[a])
        invariant
            lo <= a <= hi,
            hi <= cs@.len(),
            s == cs@.subrange(lo as int, hi as int),
            forall|j: int| lo <= j < a ==> is_ws(cs@[j]),
        decreases hi - a,
    {
        a += 1;
    }
    proof {
        lemma_lead_ws(s, a - lo);
    }
    let mut b: usize = hi;
    while b > a && is_whitespace(cs[b - 1])
        invariant
            lo <= a <= b <= hi,
            hi <= cs@.len(),
            forall|j: int| b <= j < hi ==> is_ws(cs@[j]),
        decreases b - a,
    {
        b -= 1;
    }
    proof {
        let t = s.skip(lead_ws(s) as int);
        assert(t =~= cs@.subrange(a as int, hi as int));
        lemma_trail_ws(t, b - a);
        assert(cs@.subrange(a as int, b as int) =~= t.take(t.len() - trail_ws(t)));
    }
    (a, b)
}

/// Position of the first `c` in `cs[lo..hi]`.
pub fn find_char(cs: &[char], lo: usize, hi: usize, c: char) -> (r: Option<usize>)
    requires
        lo <= hi <= cs@.len(),
    ensures
        match find_first(cs@.subrange(lo as int, hi as int), c) {
            Some(i) => r == Some((lo + i) as usize),
            None => r is None,
        },
{
    let ghost s = cs@.subrange(lo as int, hi as int);
    let mut i: usize = lo;
    while i < hi && cs[i] != c
        invariant
            lo <= i <= hi,
            hi <= cs@.len(),
            forall|j: int| lo <= j < i ==> cs@[j] != c,
        decreases hi - i,
    {
        i += 1;
    }
    proof {
        lemma_find_first_at(s, c, i - lo);
    }
    if i < hi { Some(i) } else { None }
}

/// The bounds of every word of `cs[lo..hi]`, in order.
pub fn word_bounds(cs: &[char], lo: usize, hi: usize) -> (r: Vec<(usize, usize)>)
    requires
        lo <= hi <= cs@.len(),
    ensures
        r@.len() == words(cs@.subrange(lo as int, hi as int)).len(),
        forall|k: int| 0 <= k < r@.len() ==> lo <= (#[trigger] r@[k]).0 <= r@[k].1 <= hi
            && cs@.subrange(r@[k].0 as int, r@[k].1 as int) == words(cs@.subrange(lo as int, hi as int))[k],
{
    let mut r: Vec<(usize, usize)> = Vec::new();
    let mut i: usize = lo;
    proof {
        assert(r@.map_values(|p: (usize, usize)| cs@.subrange(p.0 as int, p.1 as int)) + words(cs@.subrange(lo as int, hi as int))
            =~= words(cs@.subrange(lo as int, hi as int)));
    }
    while i < hi
        invariant
            lo <= i <= hi,
            hi <= cs@.len(),
            words(cs@.subrange(lo as int, hi as int)) == r@.map_values(|p: (usize, usize)| cs@.subrange(p.0 as int, p.1 as int))
                + words(cs@.subrange(i as int, hi as int)),
            forall|k: int| 0 <= k < r@.len() ==> lo <= (#[trigger] r@[k]).0 <= r@[k].1 <= i,
        decreases hi - i,
    {
        let ghost s = cs@.subrange(i as int, hi as int);
        if is_whitespace(cs[i]) {
            proof {
                assert(s.drop_first() =~= cs@.subrange(i + 1, hi as int));
            }
            i += 1;
        } else {
            let mut j: usize = i + 1;
            while j < hi && !is_whitespace(cs[j])
                invariant
                    i < j <= hi,
                    hi <= cs@.len(),
                    forall|t: int| i <= t < j ==> !is_ws(cs@[t]),
                decreases hi - j,
            {
                j += 1;
            }
            proof {
                lemma_word_len_at(s, j - i);
                assert(s.take(j - i) =~= cs@.subrange(i as int, j as int));
                assert(s.skip(j - i) =~= cs@.subrange(j as int, hi as int));
            }
            let ghost before = r@;
            r.push((i, j));
            proof {
                assert(r@.map_values(|p: (usize, usize)| cs@.subrange(p.0 as int, p.1 as int))
                    =~= before.map_values(|p: (usize, usize)| cs@.subrange(p.0 as int, p.1 as int)).push(cs@.subrange(i as int, j as int)));
            }
            i = j;
        }
    }
    proof {
        assert(cs@.subrange(hi as int, hi as int) =~= Seq::<char>::empty());
        assert(words(cs@.subrange(lo as int, hi as int)) =~= r@.map_values(|p: (usize, usize)| cs@.subrange(p.0 as int, p.1 as int)));
        assert forall|k: int| 0 <= k < r@.len() implies cs@.subrange((#[trigger] r@[k]).0 as int, r@[k].1 as int) == words(cs@.subrange(lo as int, hi as int))[k] by {}
    }
    r
}

/// Digit values never make a number smaller when more digits follow.
pub proof fn lemma_digits_value_prefix(s: Seq<char>, radix: int, k: int)
    requires
        radix >= 2,
        0 <= k <= s.len(),
        all_digits(s, radix),
    ensures
        0 <= digits_value(s.take(k), radix) <= digits_value(s, radix),
    decreases s.len() - k,
{
    if k < s.len() {
        let d = s.drop_last();
        assert(s.take(k) =~= d.take(k));
        assert forall|i: int| 0 <= i < d.len() implies digit_of(#[trigger] d[i], radix) < radix by {
            assert(d[i] == s[i]);
        }
        lemma_digits_value_prefix(d, radix, k);
        assert(digit_of(s[s.len() - 1], radix) >= 0);
        assert(digits_value(d, radix) * radix >= digits_value(d, radix)) by (nonlinear_arith)
            requires digits_value(d, radix) >= 0, radix >= 2;
    } else {
        assert(s.take(k) =~= s);
        lemma_digits_value_nonneg(s, radix);
    }
}

/// Digit values are never negative.
pub proof fn lemma_digits_value_nonneg(s: Seq<char>, radix: int)
    requires
        radix >= 2,
        all_digits(s, radix),
    ensures
        digits_value(s, radix) >= 0,
    decreases s.len(),
{
    if s.len() > 0 {
        let d = s.drop_last();
        assert forall|i: int| 0 <= i < d.len() implies digit_of(#[trigger] d[i], radix) < radix by {
            assert(d[i] == s[i]);
        }
        lemma_digits_value_nonneg(d, radix);
        assert(digit_of(s[s.len() - 1], radix) >= 0);
        assert(digits_value(d, radix) * radix >= 0) by (nonlinear_arith)
            requires digits_value(d, radix) >= 0, radix >= 2;
    }
}

/// `char::to_digit(radix)`, with `radix` standing for "not a digit".
pub fn digit_value(c: char, radix: u32) -> (d: u32)
    requires
        2 <= radix <= 36,
    ensures
        d == digit_of(c, radix as int),
{
    let v = c as u32;
    let d: u32 = if 48 <= v && v <= 57 {
        v - 48
    } else if 97 <= v && v <= 122 {
        v - 97 + 10
    } else if 65 <= v && v <= 90 {
        v - 65 + 10
    } else {
        radix
    };
    if d < radix { d } else { radix }
}

/// The number spelled by the digits `cs[lo..hi]` in `radix`, if it is one
/// and at most `max`.
pub fn parse_digits_at(cs: &[char], lo: usize, hi: usize, radix: u32, max: u64) -> (r: Option<u64>)
    requires
        lo <= hi <= cs@.len(),
        2 <= radix <= 36,
    ensures
        match parse_digits(cs@.subrange(lo as int, hi as int), radix as int, max as int) {
            Some(v) => r == Some(v as u64),
            None => r is None,
        },
        parse_digits(cs@.subrange(lo as int, hi as int), radix as int, max as int) matches Some(v) ==> 0 <= v <= max,
{
    let ghost s = cs@.subrange(lo as int, hi as int);
    if lo >= hi {
        return None;
    }
    let mut acc: u64 = 0;
    let mut i: usize = lo;
    proof {
        assert(s.take(0) =~= Seq::<char>::empty());
    }
    while i < hi
        invariant
            lo <= i <= hi,
            hi <= cs@.len(),
            s == cs@.subrange(lo as int, hi as int),
            2 <= radix <= 36,
            all_digits(s.take(i - lo), radix as int),
            acc == digits_value(s.take(i - lo), radix as int),
            acc <= max,
        decreases hi - i,
    {
        let d = digit_value(cs[i], radix);
        if d >= radix {
            proof {
                assert(s[i - lo] == cs@[i as int]);
            }
            return None;
        }
        assert((acc as u128) * (radix as u128) <= 0xFFFF_FFFF_FFFF_FFFFu128 * 36) by (nonlinear_arith)
            requires acc <= 0xFFFF_FFFF_FFFF_FFFFu64, radix <= 36;
        let next: u128 = (acc as u128) * (radix as u128) + (d as u128);
        proof {
            let t = s.take(i - lo + 1);
            assert(t.drop_last() =~= s.take(i - lo));
            assert(t.last() == cs@[i as int]);
            assert forall|k: int| 0 <= k < t.len() implies digit_of(#[trigger] t[k], radix as int) < radix by {
                if k < t.len() - 1 {
                    assert(t[k] == s.take(i - lo)[k]);
                }
            }
        }
        if next > max as u128 {
            proof {
                if all_digits(s, radix as int) {
                    lemma_digits_value_prefix(s, radix as int, i - lo + 1);
                }
            }
            return None;
        }
        acc = next as u64;
        i += 1;
    }
    proof {
        assert(s.take(i - lo) =~= s);
        lemma_digits_value_nonneg(s, radix as int);
    }
    Some(acc)
}

/// `from_str_radix` for an unsigned type whose largest value is `max`.
pub fn parse_unsigned_at(cs: &[char], lo: usize, hi: usize, radix: u32, max: u64) -> (r: Option<u64>)
    requires
        lo <= hi <= cs@.len(),
        2 <= radix <= 36,
    ensures
        match parse_unsigned(cs@.subrange(lo as int, hi as int), radix as int, max as int) {
            Some(v) => r == Some(v as u64),
            None => r is None,
        },
        parse_unsigned(cs@.subrange(lo as int, hi as int), radix as int, max as int) matches Some(v) ==> 0 <= v <= max,
{
    if lo < hi && cs[lo] == '+' {
        proof {
            assert(cs@.subrange(lo as int, hi as int).drop_first() =~= cs@.subrange(lo + 1, hi as int));
        }
        parse_digits_at(cs, lo + 1, hi, radix, max)
    } else {
        parse_digits_at(cs, lo, hi, radix, max)
    }
}

/// `str::parse::<i64>`.
pub fn parse_i64_at(cs: &[char], lo: usize, hi: usize) -> (r: Option<i64>)
    requires
        lo <= hi <= cs@.len(),
    ensures
        match parse_signed(cs@.subrange(lo as int, hi as int), i64::MIN as int, i64::MAX as int) {
            Some(v) => r == Some(v as i64),
            None => r is None,
        },
        r matches Some(x) ==> parse_signed(cs@.subrange(lo as int, hi as int), i64::MIN as int, i64::MAX as int) == Some(x as int),
{
    if lo < hi && cs[lo] == '-' {
        proof {
            assert(cs@.subrange(lo as int, hi as int).drop_first() =~= cs@.subrange(lo + 1, hi as int));
        }
        match parse_digits_at(cs, lo + 1, hi, 10, 0x8000_0000_0000_0000u64) {
            Some(v) => {
                let w: i128 = 0i128 - (v as i128);
                assert(i64::MIN <= w <= 0);
                Some(w as i64)
            },
            None => None,
        }
    } else {
        match parse_unsigned_at(cs, lo, hi, 10, 0x7FFF_FFFF_FFFF_FFFFu64) {
            Some(v) => Some(v as i64),
            None => None,
        }
    }
}

/// The bounds of every line of `cs` (see [`lines_of`]).
pub fn line_bounds(cs: &[char]) -> (r: Vec<(usize, usize)>)
    ensures
        r@.len() == lines_of(cs@).len(),
        forall|k: int| 0 <= k < r@.len() ==> (#[trigger] r@[k]).0 <= r@[k].1 <= cs@.len()
            && cs@.subrange(r@[k].0 as int, r@[k].1 as int) == lines_of(cs@)[k],
{
    let n = cs.len();
    let mut r: Vec<(usize, usize)> = Vec::new();
    let mut i: usize = 0;
    proof {
        assert(cs@.subrange(0, n as int) =~= cs@);
        assert(r@.map_values(|p: (usize, usize)| cs@.subrange(p.0 as int, p.1 as int)) + lines_of(cs@) =~= lines_of(cs@));
    }
    while i < n
        invariant
            i <= n,
            n == cs@.len(),
            lines_of(cs@) == r@.map_values(|p: (usize, usize)| cs@.subrange(p.0 as int, p.1 as int)) + lines_of(cs@.subrange(i as int, n as int)),
            forall|k: int| 0 <= k < r@.len() ==> (#[trigger] r@[k]).0 <= r@[k].1 <= i,
        decreases n - i,
    {
        let ghost s = cs@.subrange(i as int, n as int);
        let ghost before = r@;
        match find_char(cs, i, n, '\n') {
            Some(j) => {
                proof {
                    lemma_find_first(s, '\n');
                }
                let mut e = j;
                if e > i && cs[e - 1] == '\r' {
                    e -= 1;
                }
                proof {
                    lemma_find_first(s, '\n');
                    let l = s.take(j - i);
                    assert(l =~= cs@.subrange(i as int, j as int));
                    assert(s.skip(j - i + 1) =~= cs@.subrange(j + 1, n as int));
                    if j > i && cs@[j - 1] == '\r' {
                        assert(l.drop_last() =~= cs@.subrange(i as int, e as int));
                    }
                }
                r.push((i, e));
                i = j + 1;
            },
            None => {
                r.push((i, n));
                i = n;
            },
        }
        proof {
            assert(r@.map_values(|p: (usize, usize)| cs@.subrange(p.0 as int, p.1 as int))
                =~= before.map_values(|p: (usize, usize)| cs@.subrange(p.0 as int, p.1 as int)).push(cs@.subrange(r@.last().0 as int, r@.last().1 as int)));
            assert(cs@.subrange(n as int, n as int) =~= Seq::<char>::empty());
        }
    }
    proof {
        assert(cs@.subrange(n as int, n as int) =~= Seq::<char>::empty());
        assert(lines_of(cs@) =~= r@.map_values(|p: (usize, usize)| cs@.subrange(p.0 as int, p.1 as int)));
        assert forall|k: int| 0 <= k < r@.len() implies cs@.subrange((#[trigger] r@[k]).0 as int, r@[k].1 as int) == lines_of(cs@)[k] by {}
    }
    r
}

/// The `ParseIntError` message for an empty string.
pub open spec fn int_error_empty() -> Seq<char> {
    "cannot parse integer from empty string"@
}

/// The `ParseIntError` message for a character that is no digit.
pub open spec fn int_error_digit() -> Seq<char> {
    "invalid digit found in string"@
}

/// The `ParseIntError` message for a value above the type's range.
pub open spec fn int_error_large() -> Seq<char> {
    "number too large to fit in target type"@
}

/// The `ParseIntError` message for a value below the type's range.
pub open spec fn int_error_small() -> Seq<char> {
    "number too small to fit in target type"@
}

/// Reading the digits `s` left to right onto `acc`, the first failure: a
/// character that is no digit, or a magnitude past `bound` (too small when
/// `negative`, else too large); empty when there is none.
pub open spec fn digits_failure(s: Seq<char>, radix: int, acc: int, bound: int, negative: bool) -> Seq<char>
    decreases s.len(),
{
    if s.len() == 0 {
        Seq::empty()
    } else if digit_of(s[0], radix) >= radix {
        int_error_digit()
    } else if acc * radix + digit_of(s[0], radix) > bound {
        if negative {
            int_error_small()
        } else {
            int_error_large()
        }
    } else {
        digits_failure(s.drop_first(), radix, acc * radix + digit_of(s[0], radix), bound, negative)
    }
}

/// The message of the `ParseIntError` that `from_str_radix` gives for `s`
/// read as an integer type whose largest value is `max`, signed (smallest
/// `-max - 1`) or not: empty input, a sign alone, an optional sign then
/// the first failing digit.
pub open spec fn int_error(s: Seq<char>, radix: int, max: int, signed: bool) -> Seq<char> {
    if s.len() == 0 {
        int_error_empty()
    } else if s.len() == 1 && (s[0] == '+' || s[0] == '-') {
        int_error_digit()
    } else if s[0] == '+' {
        digits_failure(s.drop_first(), radix, 0, max, false)
    } else if s[0] == '-' && signed {
        digits_failure(s.drop_first(), radix, 0, max + 1, true)
    } else {
        digits_failure(s, radix, 0, max, false)
    }
}

/// The `ParseIntError` message for `cs[lo..hi]` (see [`int_error`]).
pub fn int_error_at(cs: &[char], lo: usize, hi: usize, radix: u32, max: u64, signed: bool) -> (r: String)
    requires
        lo <= hi <= cs@.len(),
        2 <= radix <= 36,
    ensures
        r@ == int_error(cs@.subrange(lo as int, hi as int), radix as int, max as int, signed),
{
    let ghost s = cs@.subrange(lo as int, hi as int);
    if lo == hi {
        return String::from_str("cannot parse integer from empty string");
    }
    if hi - lo == 1 && (cs[lo] == '+' || cs[lo] == '-') {
        return String::from_str("invalid digit found in string");
    }
    let mut start: usize = lo;
    let mut bound: u128 = max as u128;
    let mut negative = false;
    if cs[lo] == '+' {
        start = lo + 1;
    } else if cs[lo] == '-' && signed {
        start = lo + 1;
        bound = max as u128 + 1;
        negative = true;
    }
    proof {
        assert(s.drop_first() =~= cs@.subrange(lo + 1, hi as int));
    }
    let ghost full = digits_failure(cs@.subrange(start as int, hi as int), radix as int, 0, bound as int, negative);
    proof {
        assert(cs@.subrange(lo as int, hi as int) =~= s);
        assert(s[0] == cs@[lo as int]);
        assert(int_error(s, radix as int, max as int, signed) == full);
    }
    let mut acc: u128 = 0;
    let mut i: usize = start;
    while i < hi
        invariant
            start <= i <= hi <= cs@.len(),
            2 <= radix <= 36,
            acc <= bound <= u64::MAX as u128 + 1,
            full == digits_failure(cs@.subrange(i as int, hi as int), radix as int, acc as int, bound as int, negative),
            s == cs@.subrange(lo as int, hi as int),
            int_error(s, radix as int, max as int, signed) == full,
        decreases hi - i,
    {
        proof {
            assert(cs@.subrange(i as int, hi as int)[0] == cs@[i as int]);
            assert(cs@.subrange(i as int, hi as int).drop_first() =~= cs@.subrange(i + 1, hi as int));
        }
        let d = digit_value(cs[i], radix);
        if d >= radix {
            return String::from_str("invalid digit found in string");
        }
        assert(acc * (radix as u128) <= (u64::MAX as u128 + 1) * 36) by (nonlinear_arith)
            requires
                acc <= u64::MAX as u128 + 1,
                radix <= 36,
        ;
        let next: u128 = acc * (radix as u128) + d as u128;
        if next > bound {
            if negative {
                return String::from_str("number too small to fit in target type");
            } else {
                return String::from_str("number too large to fit in target type");
            }
        }
        acc = next;
        i = i + 1;
    }
    proof {
        assert(cs@.subrange(hi as int, hi as int) =~= Seq::<char>::empty());
    }
    String::new()
}

} // verus!

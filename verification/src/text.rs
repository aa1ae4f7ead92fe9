//! Text helpers: character sequences, string equality and substring search.

use vstd::prelude::*;
use vstd::std_specs::iter::IteratorSpec;

verus! {

broadcast use vstd::string::group_string_axioms;

/// `pat` occurs in `s` starting at position `i`.
pub open spec fn occurs_at(s: Seq<char>, pat: Seq<char>, i: int) -> bool {
    0 <= i && i + pat.len() <= s.len() && s.subrange(i, i + pat.len()) == pat
}

/// `pat` occurs somewhere in `s`.
pub open spec fn seq_contains(s: Seq<char>, pat: Seq<char>) -> bool {
    exists|i: int| occurs_at(s, pat, i)
}

/// Whether two string slices hold the same characters.
pub(crate) fn str_eq(a: &str, b: &str) -> (r: bool)
    ensures
        r == (a@ == b@),
{
    let av = chars_of(a);
    let bv = chars_of(b);
    if av.len() != bv.len() {
        return false;
    }
    let n = av.len();
    let mut i: usize = 0;
    while i < n
        invariant
            n == av@.len(),
            n == bv@.len(),
            av@ == a@,
            bv@ == b@,
            i <= n,
            forall|j: int| 0 <= j < i ==> av@[j] == bv@[j],
        decreases n - i,
    {
        if av[i] != bv[i] {
            return false;
        }
        i += 1;
    }
    assert(av@ =~= bv@);
    true
}

/// Whether `pat` occurs in `s`.
pub(crate) fn str_contains(s: &str, pat: &str) -> (r: bool)
    ensures
        r == seq_contains(s@, pat@),
{
    let sv = chars_of(s);
    let pv = chars_of(pat);
    let found = find_exec(&sv, &pv, 0);
    proof {
        lemma_find_from_found(sv@, pv@, 0);
        lemma_find_from_none(sv@, pv@, 0);
    }
    match found {
        Some(_) => true,
        None => false,
    }
}

/// Appending one character to a `String` (`String::push`): the string's
/// characters gain `ch` at the end.
pub assume_specification[ String::push ](s: &mut String, ch: char)
    ensures
        final(s)@ == old(s)@.push(ch),
;

/// What `str::to_lowercase` makes of a text: the Unicode lower-case mapping,
/// which depends on the text alone.
pub uninterp spec fn lowercase(s: Seq<char>) -> Seq<char>;

/// Every character of `s` is ASCII.
pub open spec fn is_ascii_text(s: Seq<char>) -> bool {
    forall|i: int| 0 <= i < s.len() ==> (#[trigger] s[i] as u32) < 128
}

/// An ASCII character lower-cased: `A`..`Z` become `a`..`z`, any other is kept.
pub open spec fn ascii_lower_char(c: char) -> char {
    if 'A' <= c && c <= 'Z' {
        ((c as u32) + 32) as char
    } else {
        c
    }
}

/// Every character of `s` lower-cased as ASCII.
pub open spec fn ascii_lower(s: Seq<char>) -> Seq<char> {
    s.map_values(|c: char| ascii_lower_char(c))
}

/// Lower-cases a string slice (`str::to_lowercase`). Claims that the result
/// is the lower-case mapping of the argument, and, for ASCII text, the
/// mapping of Unicode's lower-case property there: each letter `A`..`Z` to
/// `a`..`z`, every other character kept. What it does to other text is left
/// to the name.
#[verifier::external_body]
pub(crate) fn to_lowercase(s: &str) -> (r: String)
    ensures
        r@ == lowercase(s@),
        is_ascii_text(s@) ==> r@ == ascii_lower(s@),
{
    s.to_lowercase()
}

/// The characters of `s`, in order.
pub fn chars_of(s: &str) -> (v: Vec<char>)
    ensures
        v@ == s@,
{
    let mut v: Vec<char> = Vec::new();
    let mut it = s.chars();
    loop
        invariant
            v@ + it.remaining() == s@,
            it.decrease() is Some,
        ensures
            v@ == s@,
        decreases it.decrease()->0,
    {
        match it.next() {
            Some(c) => {
                v.push(c);
            },
            None => {
                assert(v@ + it.remaining() == v@);
                break ;
            },
        }
    }
    v
}

/// A `String` holding the characters of `v`.
pub fn string_of(v: &Vec<char>) -> (s: String)
    ensures
        s@ == v@,
{
    let mut s = String::new();
    let mut i: usize = 0;
    while i < v.len()
        invariant
            i <= v.len(),
            s@ == v@.take(i as int),
        decreases v.len() - i,
    {
        s.push(v[i]);
        assert(v@.take(i + 1) == v@.take(i as int).push(v@[i as int]));
        i += 1;
    }
    assert(v@.take(v.len() as int) == v@);
    s
}


// ── Decimal numbers ───────────────────────────────────────────────────────────

/// The ASCII digit for 0 <= d < 10.
pub open spec fn digit_char(d: int) -> char {
    (d + 48) as char
}

pub open spec fn is_digit(c: char) -> bool {
    '0' <= c && c <= '9'
}

pub open spec fn digit_value(c: char) -> int {
    c as int - 48
}

/// Decimal representation of n, without leading zeros.
pub open spec fn dec_nat(n: nat) -> Seq<char>
    decreases n,
{
    if n < 10 {
        seq![digit_char(n as int)]
    } else {
        dec_nat(n / 10).push(digit_char((n % 10) as int))
    }
}

/// Decimal representation of i, with a leading '-' when negative.
pub open spec fn dec_int(i: int) -> Seq<char> {
    if i < 0 {
        seq!['-'] + dec_nat((-i) as nat)
    } else {
        dec_nat(i as nat)
    }
}

fn push_digit(s: &mut String, d: u64)
    requires
        d < 10,
    ensures
        final(s)@ == old(s)@.push(digit_char(d as int)),
{
    let c = ((d as u8) + 48u8) as char;
    assert(c == digit_char(d as int));
    s.push(c);
}

/// Append the decimal representation of n.
pub fn push_dec(s: &mut String, n: u64)
    ensures
        final(s)@ == old(s)@ + dec_nat(n as nat),
    decreases n,
{
    if n >= 10 {
        push_dec(s, n / 10);
        push_digit(s, n % 10);
        assert(old(s)@ + dec_nat((n / 10) as nat) + seq![digit_char((n % 10) as int)] == old(s)@ + dec_nat(
            n as nat,
        ));
    } else {
        push_digit(s, n);
        assert(old(s)@.push(digit_char(n as int)) == old(s)@ + dec_nat(n as nat));
    }
}

/// Append the decimal representation of i, with '-' when negative.
pub fn push_dec_i64(s: &mut String, i: i64)
    requires
        i > i64::MIN,
    ensures
        final(s)@ == old(s)@ + dec_int(i as int),
{
    if i < 0 {
        s.push('-');
        push_dec(s, (-i) as u64);
        assert(old(s)@.push('-') + dec_nat((-i) as nat) == old(s)@ + dec_int(i as int));
    } else {
        push_dec(s, i as u64);
    }
}

/// The decimal digits of n are digits, at least one of them, and read back as n.
pub proof fn lemma_dec_nat_digits(n: nat)
    ensures
        dec_nat(n).len() > 0,
        all_digits(dec_nat(n)),
        digits_value(dec_nat(n)) == n,
    decreases n,
{
    if n >= 10 {
        lemma_dec_nat_digits(n / 10);
        let d = dec_nat(n / 10);
        let c = digit_char((n % 10) as int);
        assert(dec_nat(n).drop_last() == d);
        assert(dec_nat(n).last() == c);
        assert(digit_value(c) == n % 10);
        assert(digits_value(dec_nat(n)) == digits_value(d) * 10 + digit_value(c));
        assert((n / 10) * 10 + n % 10 == n);
        assert forall|i: int| 0 <= i < dec_nat(n).len() implies is_digit(#[trigger] dec_nat(n)[i]) by {
            if i < d.len() {
                assert(dec_nat(n)[i] == d[i]);
            }
        }
    } else {
        let c = digit_char(n as int);
        assert(digit_value(c) == n);
        assert(dec_nat(n).drop_last().len() == 0);
        assert(digits_value(dec_nat(n)) == digits_value(dec_nat(n).drop_last()) * 10 + digit_value(c));
    }
}

/// No character of a decimal number is `c` unless `c` is a digit or '-'.
pub proof fn lemma_dec_int_chars(i: int, c: char)
    requires
        !is_digit(c),
        c != '-',
    ensures
        forall|k: int| 0 <= k < dec_int(i).len() ==> dec_int(i)[k] != c,
{
    if i < 0 {
        lemma_dec_nat_digits((-i) as nat);
        assert forall|k: int| 0 <= k < dec_int(i).len() implies dec_int(i)[k] != c by {
            if k > 0 {
                assert(dec_int(i)[k] == dec_nat((-i) as nat)[k - 1]);
            }
        }
    } else {
        lemma_dec_nat_digits(i as nat);
    }
}

/// A number written in decimal parses back to itself.
pub proof fn lemma_parse_dec_int(v: int, lo: int, hi: int)
    requires
        lo <= v <= hi,
    ensures
        parse_int(dec_int(v), lo, hi, true) == Some(v),
{
    if v < 0 {
        lemma_dec_nat_digits((-v) as nat);
        let s = dec_int(v);
        assert(s[0] == '-');
        assert(s.drop_first() == dec_nat((-v) as nat));
    } else {
        lemma_dec_nat_digits(v as nat);
        let s = dec_int(v);
        assert(is_digit(s[0]));
    }
}

/// Every character of s is an ASCII digit.
pub open spec fn all_digits(s: Seq<char>) -> bool {
    forall|i: int| 0 <= i < s.len() ==> is_digit(#[trigger] s[i])
}

/// The number written by the digits s.
pub open spec fn digits_value(s: Seq<char>) -> int
    decreases s.len(),
{
    if s.len() == 0 {
        0
    } else {
        digits_value(s.drop_last()) * 10 + digit_value(s.last())
    }
}

/// Integer parsing as Rust's `FromStr` for integers does it: an optional
/// '+' (or '-' when `signed`), then at least one ASCII digit, and a value in
/// [lo, hi]; `None` otherwise.
pub open spec fn parse_int(s: Seq<char>, lo: int, hi: int, signed: bool) -> Option<int> {
    if s.len() == 0 {
        None
    } else {
        let neg = signed && s[0] == '-';
        let digits = if s[0] == '+' || neg {
            s.drop_first()
        } else {
            s
        };
        if digits.len() == 0 || !all_digits(digits) {
            None
        } else {
            let v = if neg {
                -digits_value(digits)
            } else {
                digits_value(digits)
            };
            if lo <= v && v <= hi {
                Some(v)
            } else {
                None
            }
        }
    }
}

pub proof fn lemma_digits_value_nonneg(s: Seq<char>)
    requires
        all_digits(s),
    ensures
        digits_value(s) >= 0,
    decreases s.len(),
{
    if s.len() > 0 {
        lemma_digits_value_nonneg(s.drop_last());
    }
}

/// Digits appended after a prefix never make the number smaller.
pub proof fn lemma_digits_value_grows(s: Seq<char>, n: int)
    requires
        all_digits(s),
        0 <= n <= s.len(),
    ensures
        digits_value(s.take(n)) <= digits_value(s),
    decreases s.len(),
{
    if n < s.len() {
        lemma_digits_value_grows(s.drop_last(), n);
        assert(s.drop_last().take(n) == s.take(n));
        lemma_digits_value_nonneg(s.drop_last());
        assert(is_digit(s.last()));
    } else {
        assert(s.take(n) == s);
    }
}

/// Parse the characters `s[start..]` as decimal digits, with the value
/// capped: `None` when some character is not a digit, when there is none,
/// or when the value exceeds `cap`.
fn parse_digits(s: &Vec<char>, start: usize, cap: u64) -> (r: Option<u64>)
    requires
        start <= s@.len(),
        cap <= 0xffff_ffff_ffff,
    ensures
        ({
            let d = s@.subrange(start as int, s@.len() as int);
            match r {
                Some(v) => d.len() > 0 && all_digits(d) && v == digits_value(d) && v <= cap,
                None => d.len() == 0 || !all_digits(d) || digits_value(d) > cap,
            }
        }),
{
    let ghost d = s@.subrange(start as int, s@.len() as int);
    let n = s.len();
    if start == n {
        return None;
    }
    let mut acc: u64 = 0;
    let mut i = start;
    while i < n
        invariant
            start <= i <= n,
            n == s@.len(),
            d == s@.subrange(start as int, n as int),
            cap <= 0xffff_ffff_ffff,
            all_digits(d.take(i - start)),
            acc == digits_value(d.take(i - start)),
            acc <= cap,
        decreases n - i,
    {
        let c = s[i];
        if !('0' <= c && c <= '9') {
            assert(d[i - start] == c);
            return None;
        }
        let dv = (c as u32 - 48) as u64;
        assert(d.take(i + 1 - start).drop_last() == d.take(i - start));
        assert(d.take(i + 1 - start).last() == c);
        acc = acc * 10 + dv;
        if acc > cap {
            proof {
                assert(all_digits(d.take(i + 1 - start)));
                if all_digits(d) {
                    lemma_digits_value_grows(d, i + 1 - start);
                }
            }
            return None;
        }
        i += 1;
    }
    assert(d.take(n - start) == d);
    Some(acc)
}

/// Parse `s` as a signed 32-bit integer, as `str::parse::<i32>` does.
pub fn parse_i32(s: &str) -> (r: Option<i32>)
    ensures
        match r {
            Some(v) => parse_int(s@, i32::MIN as int, i32::MAX as int, true) == Some(v as int),
            None => parse_int(s@, i32::MIN as int, i32::MAX as int, true) is None,
        },
{
    let v = chars_of(s);
    if v.len() == 0 {
        return None;
    }
    let neg = v[0] == '-';
    let start: usize = if v[0] == '+' || neg {
        1
    } else {
        0
    };
    assert(v@.subrange(start as int, v@.len() as int) == if v@[0] == '+' || neg {
        v@.drop_first()
    } else {
        v@
    });
    match parse_digits(&v, start, 2147483648) {
        None => None,
        Some(d) => {
            if neg {
                Some((-(d as i64)) as i32)
            } else if d <= 2147483647 {
                Some(d as i32)
            } else {
                None
            }
        },
    }
}

/// Parse `s` as an unsigned integer of at most `max`, as `str::parse` does
/// for an unsigned type whose largest value is `max`.
pub fn parse_unsigned(s: &str, max: u64) -> (r: Option<u64>)
    requires
        max <= 0xffff_ffff_ffff,
    ensures
        match r {
            Some(v) => parse_int(s@, 0, max as int, false) == Some(v as int),
            None => parse_int(s@, 0, max as int, false) is None,
        },
{
    let v = chars_of(s);
    if v.len() == 0 {
        return None;
    }
    let start: usize = if v[0] == '+' {
        1
    } else {
        0
    };
    assert(v@.subrange(start as int, v@.len() as int) == if v@[0] == '+' {
        v@.drop_first()
    } else {
        v@
    });
    parse_digits(&v, start, max)
}


/// Parse `s` as an index below `len`, as `str::parse::<usize>` followed by
/// a bounds check does it: `None` when it does not parse or is not below `len`.
pub fn parse_index(s: &str, len: usize) -> (r: Option<usize>)
    ensures
        match r {
            Some(v) => v < len && parse_int(s@, 0, len - 1, false) == Some(v as int),
            None => len == 0 || parse_int(s@, 0, len - 1, false) is None,
        },
{
    let v = chars_of(s);
    if v.len() == 0 || len == 0 {
        return None;
    }
    let start: usize = if v[0] == '+' {
        1
    } else {
        0
    };
    let ghost d = v@.subrange(start as int, v@.len() as int);
    assert(d == if v@[0] == '+' {
        v@.drop_first()
    } else {
        v@
    });
    let n = v.len();
    if start == n {
        return None;
    }
    let cap: u128 = (len - 1) as u128;
    let mut acc: u128 = 0;
    let mut i = start;
    while i < n
        invariant
            start <= i <= n,
            start < n,
            n == v@.len(),
            d == v@.subrange(start as int, n as int),
            cap == len - 1,
            len <= usize::MAX,
            v@ == s@,
            v@.len() > 0,
            d == if v@[0] == '+' {
                v@.drop_first()
            } else {
                v@
            },
            all_digits(d.take(i - start)),
            acc == digits_value(d.take(i - start)),
            acc <= cap,
        decreases n - i,
    {
        let c = v[i];
        if !('0' <= c && c <= '9') {
            assert(d[i - start] == c);
            return None;
        }
        let dv = (c as u32 - 48) as u128;
        assert(d.take(i + 1 - start).drop_last() == d.take(i - start));
        assert(d.take(i + 1 - start).last() == c);
        acc = acc * 10 + dv;
        if acc > cap {
            proof {
                assert(all_digits(d.take(i + 1 - start)));
                if all_digits(d) {
                    lemma_digits_value_grows(d, i + 1 - start);
                }
            }
            return None;
        }
        i += 1;
    }
    assert(d.take(n - start) == d);
    Some(acc as usize)
}

// ── Replacing and searching ───────────────────────────────────────────────────

/// Every occurrence of `c` in s replaced by `r` (`str::replace` with a char pattern).
pub open spec fn replace_char(s: Seq<char>, c: char, r: Seq<char>) -> Seq<char>
    decreases s.len(),
{
    if s.len() == 0 {
        Seq::empty()
    } else {
        (if s[0] == c {
            r
        } else {
            seq![s[0]]
        }) + replace_char(s.skip(1), c, r)
    }
}

/// Every occurrence of the pair `a b` replaced by `c`, scanning left to
/// right without overlap (`str::replace` with a two-character pattern).
pub open spec fn replace_pair(s: Seq<char>, a: char, b: char, c: char) -> Seq<char>
    decreases s.len(),
{
    if s.len() == 0 {
        Seq::empty()
    } else if s.len() >= 2 && s[0] == a && s[1] == b {
        seq![c] + replace_pair(s.skip(2), a, b, c)
    } else {
        seq![s[0]] + replace_pair(s.skip(1), a, b, c)
    }
}

/// The first position at or after `i` where `pat` occurs in `s`.
pub open spec fn find_from(s: Seq<char>, pat: Seq<char>, i: int) -> Option<int>
    decreases s.len() + 1 - i,
{
    if i < 0 || i + pat.len() > s.len() {
        None
    } else if occurs_at(s, pat, i) {
        Some(i)
    } else {
        find_from(s, pat, i + 1)
    }
}

/// What `find_from` finds is an occurrence, at or after the start.
pub proof fn lemma_find_from_found(s: Seq<char>, pat: Seq<char>, i: int)
    ensures
        match find_from(s, pat, i) {
            Some(p) => i <= p && occurs_at(s, pat, p),
            None => true,
        },
    decreases s.len() + 1 - i,
{
    if !(i < 0 || i + pat.len() > s.len()) && !occurs_at(s, pat, i) {
        lemma_find_from_found(s, pat, i + 1);
    }
}

/// When `find_from` finds nothing, `pat` occurs nowhere at or after `i`.
pub proof fn lemma_find_from_none(s: Seq<char>, pat: Seq<char>, i: int)
    requires
        0 <= i,
    ensures
        find_from(s, pat, i) is None ==> forall|j: int| i <= j ==> !occurs_at(s, pat, j),
        find_from(s, pat, 0) is None && i == 0 ==> !seq_contains(s, pat),
    decreases s.len() + 1 - i,
{
    if !(i + pat.len() > s.len()) && !occurs_at(s, pat, i) {
        lemma_find_from_none(s, pat, i + 1);
    }
}

proof fn lemma_replace_char_step(s: Seq<char>, i: int, c: char, r: Seq<char>)
    requires
        0 <= i < s.len(),
    ensures
        replace_char(s.skip(i), c, r) == (if s[i] == c {
            r
        } else {
            seq![s[i]]
        }) + replace_char(s.skip(i + 1), c, r),
{
    assert(s.skip(i).skip(1) == s.skip(i + 1));
}

/// `s` with every `c` replaced by `r`.
pub fn replace_char_exec(s: &Vec<char>, c: char, r: &Vec<char>) -> (out: Vec<char>)
    ensures
        out@ == replace_char(s@, c, r@),
{
    let mut out: Vec<char> = Vec::new();
    let mut i: usize = 0;
    assert(s@.skip(0) == s@);
    while i < s.len()
        invariant
            i <= s@.len(),
            out@ + replace_char(s@.skip(i as int), c, r@) == replace_char(s@, c, r@),
        decreases s@.len() - i,
    {
        proof {
            lemma_replace_char_step(s@, i as int, c, r@);
        }
        if s[i] == c {
            let mut j: usize = 0;
            let ghost before = out@;
            while j < r.len()
                invariant
                    j <= r@.len(),
                    out@ == before + r@.take(j as int),
                decreases r@.len() - j,
            {
                out.push(r[j]);
                assert(r@.take(j + 1) == r@.take(j as int).push(r@[j as int]));
                j += 1;
            }
            assert(r@.take(r@.len() as int) == r@);
        } else {
            out.push(s[i]);
        }
        i += 1;
    }
    assert(s@.skip(s@.len() as int) == Seq::<char>::empty());
    out
}

/// `s` with every pair `a b` replaced by `c`.
pub fn replace_pair_exec(s: &Vec<char>, a: char, b: char, c: char) -> (out: Vec<char>)
    ensures
        out@ == replace_pair(s@, a, b, c),
{
    let mut out: Vec<char> = Vec::new();
    let mut i: usize = 0;
    let n = s.len();
    assert(s@.skip(0) == s@);
    while i < n
        invariant
            i <= n,
            n == s@.len(),
            out@ + replace_pair(s@.skip(i as int), a, b, c) == replace_pair(s@, a, b, c),
        decreases n - i,
    {
        let ghost t = s@.skip(i as int);
        if i + 1 < n && s[i] == a && s[i + 1] == b {
            assert(t.skip(2) == s@.skip(i + 2));
            out.push(c);
            i += 2;
        } else {
            assert(t.skip(1) == s@.skip(i + 1));
            out.push(s[i]);
            i += 1;
        }
    }
    assert(s@.skip(n as int) == Seq::<char>::empty());
    out
}

/// The first position at or after `from` where `pat` occurs in `s`.
pub fn find_exec(s: &Vec<char>, pat: &Vec<char>, from: usize) -> (r: Option<usize>)
    requires
        from <= s@.len(),
    ensures
        match r {
            Some(i) => find_from(s@, pat@, from as int) == Some(i as int),
            None => find_from(s@, pat@, from as int) is None,
        },
{
    let n = s.len();
    let m = pat.len();
    if m > n {
        return None;
    }
    let mut i = from;
    while i <= n - m
        invariant
            from <= i,
            m <= n,
            n == s@.len(),
            m == pat@.len(),
            find_from(s@, pat@, from as int) == find_from(s@, pat@, i as int),
        decreases n + 1 - i,
    {
        let mut j: usize = 0;
        let mut ok = true;
        assert(s@.subrange(i as int, i as int) == pat@.take(0));
        while j < m && ok
            invariant
                j <= m,
                i + m <= n,
                n == s@.len(),
                m == pat@.len(),
                ok == (s@.subrange(i as int, i + j) == pat@.take(j as int)),
            decreases m - j,
        {
            if s[i + j] != pat[j] {
                ok = false;
                assert(s@.subrange(i as int, i + j + 1)[j as int] != pat@.take(j + 1)[j as int]);
            } else {
                assert(s@.subrange(i as int, i + j + 1) == s@.subrange(i as int, i + j).push(s@[i + j]));
                assert(pat@.take(j + 1) == pat@.take(j as int).push(pat@[j as int]));
            }
            j += 1;
        }
        if ok {
            assert(pat@.take(m as int) == pat@);
            return Some(i);
        }
        proof {
            if occurs_at(s@, pat@, i as int) {
                assert(s@.subrange(i as int, i + j) == s@.subrange(i as int, i + m).take(j as int));
            }
        }
        i += 1;
    }
    None
}


// ── Splitting ─────────────────────────────────────────────────────────────────

/// Position of the first `c` in `s`.
pub open spec fn first_index(s: Seq<char>, c: char) -> Option<int>
    decreases s.len(),
{
    if s.len() == 0 {
        None
    } else if s[0] == c {
        Some(0)
    } else {
        match first_index(s.skip(1), c) {
            Some(i) => Some(i + 1),
            None => None,
        }
    }
}

pub proof fn lemma_first_index_bounds(s: Seq<char>, c: char)
    ensures
        match first_index(s, c) {
            Some(i) => 0 <= i < s.len() && s[i] == c && forall|j: int| 0 <= j < i ==> s[j] != c,
            None => forall|j: int| 0 <= j < s.len() ==> s[j] != c,
        },
    decreases s.len(),
{
    if s.len() > 0 && s[0] != c {
        lemma_first_index_bounds(s.skip(1), c);
        match first_index(s.skip(1), c) {
            Some(i) => {
                assert forall|j: int| 0 <= j < i + 1 implies s[j] != c by {
                    if j > 0 {
                        assert(s[j] == s.skip(1)[j - 1]);
                    }
                }
            },
            None => {
                assert forall|j: int| 0 <= j < s.len() implies s[j] != c by {
                    if j > 0 {
                        assert(s[j] == s.skip(1)[j - 1]);
                    }
                }
            },
        }
    }
}

pub fn first_index_exec(v: &Vec<char>, start: usize, c: char) -> (r: Option<usize>)
    requires
        start <= v@.len(),
    ensures
        match first_index(v@.skip(start as int), c) {
            Some(i) => r == Some((start + i) as usize),
            None => r is None,
        },
{
    let n = v.len();
    let mut i = start;
    while i < n
        invariant
            start <= i <= n,
            n == v@.len(),
            forall|j: int| start <= j < i ==> v@[j] != c,
        decreases n - i,
    {
        if v[i] == c {
            proof {
                lemma_first_index_bounds(v@.skip(start as int), c);
                lemma_first_index_unique(v@.skip(start as int), c, i - start);
            }
            return Some(i);
        }
        i += 1;
    }
    proof {
        lemma_first_index_bounds(v@.skip(start as int), c);
        match first_index(v@.skip(start as int), c) {
            Some(k) => assert(v@.skip(start as int)[k] == v@[start + k]),
            None => {},
        }
    }
    None
}

pub proof fn lemma_first_index_unique(s: Seq<char>, c: char, i: int)
    requires
        0 <= i < s.len(),
        s[i] == c,
        forall|j: int| 0 <= j < i ==> s[j] != c,
    ensures
        first_index(s, c) == Some(i),
    decreases s.len(),
{
    if i > 0 {
        assert forall|j: int| 0 <= j < i - 1 implies s.skip(1)[j] != c by {
            assert(s.skip(1)[j] == s[j + 1]);
        }
        lemma_first_index_unique(s.skip(1), c, i - 1);
    }
}

pub fn sub_string(v: &Vec<char>, from: usize, to: usize) -> (r: String)
    requires
        from <= to <= v@.len(),
    ensures
        r@ == v@.subrange(from as int, to as int),
{
    let mut out: Vec<char> = Vec::new();
    let mut i = from;
    while i < to
        invariant
            from <= i <= to,
            to <= v@.len(),
            out@ == v@.subrange(from as int, i as int),
        decreases to - i,
    {
        out.push(v[i]);
        assert(v@.subrange(from as int, i + 1) == v@.subrange(from as int, i as int).push(v@[i as int]));
        i += 1;
    }
    string_of(&out)
}


/// The pieces of `t` between the characters `c`, as `str::split` gives them.
pub open spec fn pieces_at(t: Seq<char>, c: char) -> Seq<Seq<char>>
    decreases t.len(),
{
    match first_index(t, c) {
        None => seq![t],
        Some(i) => {
            proof {
                lemma_first_index_bounds(t, c);
            }
            seq![t.take(i)] + pieces_at(t.skip(i + 1), c)
        },
    }
}

/// Split `text` at every `c`.
pub fn split_at_char(text: &str, c: char) -> (r: Vec<String>)
    ensures
        r@.map_values(|s: String| s@) == pieces_at(text@, c),
{
    let v = chars_of(text);
    let n = v.len();
    let mut out: Vec<String> = Vec::new();
    let mut start: usize = 0;
    assert(v@.skip(0) == v@);
    assert(out@.map_values(|s: String| s@) + pieces_at(v@, c) =~= pieces_at(v@, c));
    loop
        invariant_except_break
            start <= n,
            n == v@.len(),
            v@ == text@,
            out@.map_values(|s: String| s@) + pieces_at(v@.skip(start as int), c) == pieces_at(v@, c),
        ensures
            out@.map_values(|s: String| s@) == pieces_at(text@, c),
        decreases n - start,
    {
        let ghost rest = v@.skip(start as int);
        match first_index_exec(&v, start, c) {
            None => {
                out.push(sub_string(&v, start, n));
                assert(rest.take(rest.len() as int) == rest);
                assert(out@.map_values(|s: String| s@) =~= out@.drop_last().map_values(|s: String| s@).push(rest));
                assert(out@.drop_last().map_values(|s: String| s@) + seq![rest] == pieces_at(v@, c));
                break;
            },
            Some(i) => {
                proof {
                    lemma_first_index_bounds(rest, c);
                    assert(rest.take(i - start) == v@.subrange(start as int, i as int));
                    assert(rest.skip(i - start + 1) == v@.skip(i + 1));
                }
                let ghost before = out@.map_values(|s: String| s@);
                out.push(sub_string(&v, start, i));
                assert(out@.map_values(|s: String| s@) =~= before.push(v@.subrange(start as int, i as int)));
                assert(before + pieces_at(rest, c) == before + (seq![v@.subrange(start as int, i as int)] + pieces_at(v@.skip(i + 1), c)));
                assert(before.push(v@.subrange(start as int, i as int)) + pieces_at(v@.skip(i + 1), c) =~= before + (seq![v@.subrange(start as int, i as int)] + pieces_at(v@.skip(i + 1), c)));
                start = i + 1;
            },
        }
    }
    out
}


// ── Prefixes ──────────────────────────────────────────────────────────────────

/// `s` without the prefix `p`, when it starts with it (`str::strip_prefix`).
pub open spec fn after_prefix(s: Seq<char>, p: Seq<char>) -> Option<Seq<char>> {
    if p.len() <= s.len() && s.take(p.len() as int) == p {
        Some(s.skip(p.len() as int))
    } else {
        None
    }
}

/// `s` without the prefix `p`, when it starts with it.
pub fn strip_prefix(s: &str, p: &str) -> (r: Option<String>)
    ensures
        match after_prefix(s@, p@) {
            Some(t) => r is Some && r->0@ == t,
            None => r is None,
        },
{
    let v = chars_of(s);
    let pv = chars_of(p);
    let n = v.len();
    let m = pv.len();
    if m > n {
        return None;
    }
    let mut i: usize = 0;
    while i < m
        invariant
            i <= m,
            m <= n,
            n == v@.len(),
            m == pv@.len(),
            v@ == s@,
            pv@ == p@,
            v@.take(i as int) == pv@.take(i as int),
        decreases m - i,
    {
        if v[i] != pv[i] {
            assert(v@.take(m as int)[i as int] != pv@[i as int]);
            assert(v@.take(m as int) != pv@);
            return None;
        }
        assert(v@.take(i + 1) == v@.take(i as int).push(v@[i as int]));
        assert(pv@.take(i + 1) == pv@.take(i as int).push(pv@[i as int]));
        i += 1;
    }
    assert(pv@.take(m as int) == pv@);
    assert(v@.subrange(m as int, n as int) == v@.skip(m as int));
    Some(sub_string(&v, m, n))
}
} // verus!

//! Address canonicalization: IPv4 shorthand expansion, IPv6 validation,
//! CIDR handling, and syntactic classification of address-like strings.

use vstd::prelude::*;

verus! {

/// Whitespace characters removed by trimming: the Unicode
/// White_Space set.
pub open spec fn is_space(c: char) -> bool {
    ('\u{9}' <= c && c <= '\u{d}') || c == ' ' || c == '\u{85}' || c == '\u{a0}'
        || c == '\u{1680}' || ('\u{2000}' <= c && c <= '\u{200a}') || c == '\u{2028}'
        || c == '\u{2029}' || c == '\u{202f}' || c == '\u{205f}' || c == '\u{3000}'
}

/// Decimal digit.
pub open spec fn is_digit(c: char) -> bool {
    '0' <= c && c <= '9'
}

pub open spec fn digit_val(c: char) -> int {
    c as int - '0' as int
}

pub open spec fn all_digits(s: Seq<char>) -> bool {
    forall|i: int| 0 <= i < s.len() ==> is_digit(#[trigger] s[i])
}

/// Value of a digit string read in base 10.
pub open spec fn dec_val(s: Seq<char>) -> int
    decreases s.len(),
{
    if s.len() == 0 {
        0
    } else {
        dec_val(s.drop_last()) * 10 + digit_val(s.last())
    }
}

/// The digits of an unsigned-integer literal: an optional leading `+`
/// sign is skipped, as the standard integer parser does.
pub open spec fn uint_digits(s: Seq<char>) -> Seq<char> {
    if s.len() > 0 && s[0] == '+' {
        s.skip(1)
    } else {
        s
    }
}

/// Whether `s` is a well-formed unsigned-integer literal.
pub open spec fn is_uint_str(s: Seq<char>) -> bool {
    uint_digits(s).len() > 0 && all_digits(uint_digits(s))
}

/// Numeric value of an unsigned-integer literal.
pub open spec fn uint_val(s: Seq<char>) -> int {
    dec_val(uint_digits(s))
}

/// Index of the first occurrence of `c` in `s` at or after `i`, or -1.
pub open spec fn find_from(s: Seq<char>, c: char, i: int) -> int
    decreases s.len() - i,
{
    if i < 0 || i >= s.len() {
        -1
    } else if s[i] == c {
        i
    } else {
        find_from(s, c, i + 1)
    }
}

pub open spec fn find_char(s: Seq<char>, c: char) -> int {
    find_from(s, c, 0)
}

pub open spec fn contains_char(s: Seq<char>, c: char) -> bool {
    find_char(s, c) >= 0
}

proof fn lemma_find_from_in_range(s: Seq<char>, c: char, i: int)
    requires
        0 <= i <= s.len(),
    ensures
        find_from(s, c, i) == -1 || (i <= find_from(s, c, i) < s.len() && s[find_from(s, c, i)]
            == c),
        find_from(s, c, i) == -1 ==> forall|k: int| i <= k < s.len() ==> s[k] != c,
        find_from(s, c, i) >= 0 ==> forall|k: int| i <= k < find_from(s, c, i) ==> s[k] != c,
    decreases s.len() - i,
{
    if i < s.len() && s[i] != c {
        lemma_find_from_in_range(s, c, i + 1);
    }
}

/// The characters of `s`, one by one, as a vector.
pub(crate) fn chars_of(s: &str) -> (v: Vec<char>)
    ensures
        v@ == s@,
{
    let n = s.unicode_len();
    let mut v: Vec<char> = Vec::new();
    for i in 0..n
        invariant
            n == s@.len(),
            v@ == s@.take(i as int),
    {
        v.push(s.get_char(i));
        proof {
            assert(v@ =~= s@.take(i + 1));
        }
    }
    proof {
        assert(v@ =~= s@);
    }
    v
}

/// `s` with leading whitespace removed.
pub open spec fn trim_front(s: Seq<char>) -> Seq<char>
    decreases s.len(),
{
    if s.len() > 0 && is_space(s[0]) {
        trim_front(s.skip(1))
    } else {
        s
    }
}

/// `s` with trailing whitespace removed.
pub open spec fn trim_back(s: Seq<char>) -> Seq<char>
    decreases s.len(),
{
    if s.len() > 0 && is_space(s.last()) {
        trim_back(s.drop_last())
    } else {
        s
    }
}

/// `s` with surrounding whitespace removed.
pub open spec fn trim_spec(s: Seq<char>) -> Seq<char> {
    trim_back(trim_front(s))
}

proof fn lemma_trim_front_is_skip(s: Seq<char>, k: int)
    requires
        0 <= k <= s.len(),
        forall|i: int| 0 <= i < k ==> is_space(#[trigger] s[i]),
        k == s.len() || !is_space(s[k]),
    ensures
        trim_front(s) == s.skip(k),
    decreases k,
{
    if k == 0 {
        assert(trim_front(s) =~= s.skip(0)) by {
            if s.len() > 0 && is_space(s[0]) {
            } else {
                assert(s =~= s.skip(0));
            }
        }
    } else {
        assert(is_space(s[0]));
        let t = s.skip(1);
        assert(forall|i: int| 0 <= i < k - 1 ==> is_space(#[trigger] t[i]));
        lemma_trim_front_is_skip(t, k - 1);
        assert(t.skip(k - 1) =~= s.skip(k));
    }
}

proof fn lemma_trim_back_is_take(s: Seq<char>, k: int)
    requires
        0 <= k <= s.len(),
        forall|i: int| k <= i < s.len() ==> is_space(#[trigger] s[i]),
        k == 0 || !is_space(s[k - 1]),
    ensures
        trim_back(s) == s.take(k),
    decreases s.len() - k,
{
    if k == s.len() {
        assert(trim_back(s) =~= s.take(k)) by {
            if s.len() > 0 && is_space(s.last()) {
            } else {
                assert(s =~= s.take(k));
            }
        }
    } else {
        assert(is_space(s.last()));
        let t = s.drop_last();
        lemma_trim_back_is_take(t, k);
        assert(t.take(k) =~= s.take(k));
    }
}

fn is_space_exec(c: char) -> (b: bool)
    ensures
        b == is_space(c),
{
    (c >= '\u{9}' && c <= '\u{d}') || c == ' ' || c == '\u{85}' || c == '\u{a0}'
        || c == '\u{1680}' || (c >= '\u{2000}' && c <= '\u{200a}') || c == '\u{2028}'
        || c == '\u{2029}' || c == '\u{202f}' || c == '\u{205f}' || c == '\u{3000}'
}

/// Bounds `(start, end)` of the trimmed region of `[lo, hi)` of `v`.
pub(crate) fn trim_bounds_range(v: &Vec<char>, lo: usize, hi: usize) -> (r: (usize, usize))
    requires
        lo <= hi <= v@.len(),
    ensures
        lo <= r.0 <= r.1 <= hi,
        trim_spec(v@.subrange(lo as int, hi as int)) == v@.subrange(r.0 as int, r.1 as int),
{
    let ghost g = v@.subrange(lo as int, hi as int);
    let mut start: usize = lo;
    while start < hi && is_space_exec(v[start])
        invariant
            lo <= start <= hi <= v@.len(),
            g == v@.subrange(lo as int, hi as int),
            forall|i: int| lo <= i < start ==> is_space(#[trigger] v@[i]),
        decreases hi - start,
    {
        start = start + 1;
    }
    proof {
        assert(forall|m: int| 0 <= m < start - lo ==> #[trigger] g[m] == v@[m + lo]);
        if start < hi {
            assert(g[start - lo] == v@[start as int]);
        }
        lemma_trim_front_is_skip(g, start - lo);
    }
    let mut end: usize = hi;
    while end > start && is_space_exec(v[end - 1])
        invariant
            start <= end <= hi,
            lo <= start,
            hi <= v@.len(),
            forall|i: int| end <= i < hi ==> is_space(#[trigger] v@[i]),
        decreases end,
    {
        end = end - 1;
    }
    proof {
        let f = g.skip(start - lo);
        assert(forall|m: int| end - start <= m < f.len() ==> #[trigger] f[m] == v@[m + start]);
        if end > start {
            assert(f[end - start - 1] == v@[end - 1]);
        }
        lemma_trim_back_is_take(f, end - start);
        assert(f.take(end - start) =~= v@.subrange(start as int, end as int));
    }
    (start, end)
}

proof fn lemma_dec_val_take_step(s: Seq<char>, i: int)
    requires
        0 <= i < s.len(),
    ensures
        dec_val(s.take(i + 1)) == dec_val(s.take(i)) * 10 + digit_val(s[i]),
{
    assert(s.take(i + 1).drop_last() =~= s.take(i));
    assert(s.take(i + 1).last() == s[i]);
}

proof fn lemma_dec_val_nonneg(s: Seq<char>)
    requires
        all_digits(s),
    ensures
        dec_val(s) >= 0,
    decreases s.len(),
{
    if s.len() > 0 {
        assert(all_digits(s.drop_last())) by {
            assert(forall|i: int|
                0 <= i < s.len() - 1 ==> is_digit(#[trigger] s.drop_last()[i]) == is_digit(s[i]));
        }
        lemma_dec_val_nonneg(s.drop_last());
    }
}

proof fn lemma_dec_val_monotone(s: Seq<char>, i: int)
    requires
        all_digits(s),
        0 <= i <= s.len(),
    ensures
        dec_val(s.take(i)) <= dec_val(s),
    decreases s.len() - i,
{
    if i < s.len() {
        lemma_dec_val_take_step(s, i);
        assert(all_digits(s.take(i))) by {
            assert(forall|k: int|
                0 <= k < i ==> is_digit(#[trigger] s.take(i)[k]) == is_digit(s[k]));
        }
        lemma_dec_val_nonneg(s.take(i));
        lemma_dec_val_monotone(s, i + 1);
        assert(dec_val(s.take(i)) <= dec_val(s.take(i)) * 10 + digit_val(s[i]));
    } else {
        assert(s.take(i) =~= s);
    }
}

/// Parses the unsigned-integer literal held between `start` and `end`,
/// rejecting malformed text and values above `u32::MAX`.
pub(crate) fn parse_u32_in(v: &Vec<char>, start: usize, end: usize) -> (r: Option<u32>)
    requires
        start <= end <= v@.len(),
    ensures
        ({
            let s = v@.subrange(start as int, end as int);
            match r {
                Some(n) => is_uint_str(s) && uint_val(s) == n,
                None => !(is_uint_str(s) && uint_val(s) <= u32::MAX),
            }
        }),
{
    let ghost s = v@.subrange(start as int, end as int);
    let mut i = start;
    if i < end && v[i] == '+' {
        i = i + 1;
        proof {
            assert(uint_digits(s) =~= v@.subrange(i as int, end as int));
        }
    } else {
        proof {
            assert(uint_digits(s) =~= v@.subrange(i as int, end as int));
        }
    }
    let ghost d = uint_digits(s);
    if i == end {
        proof {
            assert(d.len() == 0);
        }
        return None;
    }
    let digits_start = i;
    let mut acc: u64 = 0;
    while i < end
        invariant
            digits_start <= i <= end <= v@.len(),
            start <= end,
            s == v@.subrange(start as int, end as int),
            d == uint_digits(s),
            d == v@.subrange(digits_start as int, end as int),
            all_digits(d.take(i - digits_start)),
            acc == dec_val(d.take(i - digits_start)),
            acc <= u32::MAX,
        decreases end - i,
    {
        let c = v[i];
        if !(c >= '0' && c <= '9') {
            proof {
                assert(d[i - digits_start] == v@[i as int]);
                assert(!is_digit(d[i - digits_start]));
                assert(!all_digits(d));
                assert(!is_uint_str(s));
            }
            return None;
        }
        let dv: u64 = (c as u32 as u64) - ('0' as u32 as u64);
        proof {
            assert(d[i - digits_start] == v@[i as int]);
            lemma_dec_val_take_step(d, i - digits_start);
            assert(all_digits(d.take(i - digits_start + 1))) by {
                assert(forall|k: int|
                    0 <= k < i - digits_start + 1 ==> #[trigger] d.take(i - digits_start + 1)[k]
                        == d[k]);
            }
        }
        let next: u64 = acc * 10 + dv;
        if next > 0xFFFF_FFFFu64 {
            proof {
                if all_digits(d) {
                    lemma_dec_val_monotone(d, i - digits_start + 1);
                }
            }
            return None;
        }
        acc = next;
        i = i + 1;
    }
    proof {
        assert(d.take(i - digits_start) =~= d);
    }
    Some(acc as u32)
}

/// The character for a single decimal digit.
pub open spec fn digit_char(d: int) -> char {
    if d == 0 {
        '0'
    } else if d == 1 {
        '1'
    } else if d == 2 {
        '2'
    } else if d == 3 {
        '3'
    } else if d == 4 {
        '4'
    } else if d == 5 {
        '5'
    } else if d == 6 {
        '6'
    } else if d == 7 {
        '7'
    } else if d == 8 {
        '8'
    } else {
        '9'
    }
}

/// Decimal rendering of a non-negative integer, without leading zeros.
pub open spec fn dec_str(n: int) -> Seq<char>
    decreases n,
{
    if n < 10 {
        seq![digit_char(n)]
    } else {
        dec_str(n / 10).push(digit_char(n % 10))
    }
}

/// Dotted-quad rendering of a 32-bit address, big-endian.
pub open spec fn ipv4_str(n: u32) -> Seq<char> {
    dec_str(n as int / 0x1000000 % 256) + seq!['.'] + dec_str(n as int / 0x10000 % 256) + seq![
        '.',
    ] + dec_str(n as int / 0x100 % 256) + seq!['.'] + dec_str(n as int % 256)
}

fn push_digit(out: &mut String, d: u8)
    requires
        d < 10,
    ensures
        final(out)@ == old(out)@ + seq![digit_char(d as int)],
{
    let t: &str = if d == 0 {
        "0"
    } else if d == 1 {
        "1"
    } else if d == 2 {
        "2"
    } else if d == 3 {
        "3"
    } else if d == 4 {
        "4"
    } else if d == 5 {
        "5"
    } else if d == 6 {
        "6"
    } else if d == 7 {
        "7"
    } else if d == 8 {
        "8"
    } else {
        "9"
    };
    proof {
        reveal_strlit("0");
        reveal_strlit("1");
        reveal_strlit("2");
        reveal_strlit("3");
        reveal_strlit("4");
        reveal_strlit("5");
        reveal_strlit("6");
        reveal_strlit("7");
        reveal_strlit("8");
        reveal_strlit("9");
        assert(t@ =~= seq![digit_char(d as int)]);
    }
    out.append(t);
}

fn push_u8_dec(out: &mut String, n: u8)
    ensures
        final(out)@ == old(out)@ + dec_str(n as int),
{
    if n >= 100 {
        push_digit(out, n / 100);
        push_digit(out, (n / 10) % 10);
        push_digit(out, n % 10);
        proof {
            vstd::arithmetic::div_mod::lemma_div_denominator(n as int, 10, 10);
            assert(dec_str(n as int / 100) =~= seq![digit_char(n as int / 100)]);
            assert(dec_str(n as int / 10) =~= seq![digit_char(n as int / 100)].push(
                digit_char((n as int / 10) % 10),
            ));
            assert(dec_str(n as int) =~= seq![digit_char(n as int / 100)].push(
                digit_char((n as int / 10) % 10),
            ).push(digit_char(n as int % 10)));
        }
    } else if n >= 10 {
        push_digit(out, n / 10);
        push_digit(out, n % 10);
        proof {
            assert(dec_str(n as int / 10) =~= seq![digit_char(n as int / 10)]);
            assert(dec_str(n as int) =~= seq![digit_char(n as int / 10)].push(
                digit_char(n as int % 10),
            ));
        }
    } else {
        push_digit(out, n);
    }
}

fn push_dot(out: &mut String)
    ensures
        final(out)@ == old(out)@ + seq!['.'],
{
    proof {
        reveal_strlit(".");
        assert("."@ =~= seq!['.']);
    }
    out.append(".");
}

fn push_slash(out: &mut String)
    ensures
        final(out)@ == old(out)@ + seq!['/'],
{
    proof {
        reveal_strlit("/");
        assert("/"@ =~= seq!['/']);
    }
    out.append("/");
}

/// Renders a 32-bit address as a dotted quad.
fn ipv4_string(n: u32) -> (r: String)
    ensures
        r@ == ipv4_str(n),
{
    let mut out = String::new();
    push_u8_dec(&mut out, (n / 0x1000000 % 256) as u8);
    push_dot(&mut out);
    push_u8_dec(&mut out, (n / 0x10000 % 256) as u8);
    push_dot(&mut out);
    push_u8_dec(&mut out, (n / 0x100 % 256) as u8);
    push_dot(&mut out);
    push_u8_dec(&mut out, (n % 256) as u8);
    proof {
        assert(out@ =~= ipv4_str(n));
    }
    out
}

/// Segments of `s[i..]` between occurrences of the separator `c`.
pub open spec fn split_rec(s: Seq<char>, c: char, i: int) -> Seq<Seq<char>>
    decreases s.len() - i,
{
    if !(0 <= i <= s.len()) {
        seq![]
    } else {
        let j = find_from(s, c, i);
        if j < i {
            seq![s.subrange(i, s.len() as int)]
        } else if j >= s.len() {
            seq![]
        } else {
            seq![s.subrange(i, j)] + split_rec(s, c, j + 1)
        }
    }
}

/// Segments of `s` between occurrences of the separator `c`.
pub open spec fn split_char(s: Seq<char>, c: char) -> Seq<Seq<char>> {
    split_rec(s, c, 0)
}

proof fn lemma_split_step(s: Seq<char>, c: char, i: int)
    requires
        0 <= i <= s.len(),
    ensures
        ({
            let j = find_from(s, c, i);
            if j == -1 {
                split_rec(s, c, i) == seq![s.subrange(i, s.len() as int)]
            } else {
                i <= j < s.len() && split_rec(s, c, i) == seq![s.subrange(i, j)] + split_rec(
                    s,
                    c,
                    j + 1,
                )
            }
        }),
{
    lemma_find_from_in_range(s, c, i);
}

/// Index of `c` within `[lo, hi)` of `v`, with the characters before it known.
pub(crate) fn find_in_range(v: &Vec<char>, c: char, lo: usize, hi: usize) -> (r: Option<usize>)
    requires
        lo <= hi <= v@.len(),
    ensures
        match r {
            Some(j) => lo <= j < hi && v@[j as int] == c && forall|k: int|
                lo <= k < j ==> v@[k] != c,
            None => forall|k: int| lo <= k < hi ==> v@[k] != c,
        },
{
    let mut i = lo;
    while i < hi
        invariant
            lo <= i <= hi <= v@.len(),
            forall|k: int| lo <= k < i ==> v@[k] != c,
        decreases hi - i,
    {
        if v[i] == c {
            return Some(i);
        }
        i = i + 1;
    }
    None
}

/// Splits `[lo, hi)` of `v` on `c`: the bounds of each segment, in order.
pub(crate) fn split_bounds(v: &Vec<char>, c: char, lo: usize, hi: usize) -> (res: Vec<(usize, usize)>)
    requires
        lo <= hi <= v@.len(),
    ensures
        ({
            let gs = split_char(v@.subrange(lo as int, hi as int), c);
            res@.len() == gs.len() && forall|k: int|
                0 <= k < gs.len() ==> lo <= (#[trigger] res@[k]).0 <= res@[k].1 <= hi && gs[k]
                    == v@.subrange(res@[k].0 as int, res@[k].1 as int)
        }),
{
    let ghost g = v@.subrange(lo as int, hi as int);
    let mut res: Vec<(usize, usize)> = Vec::new();
    let mut seg_start = lo;
    loop
        invariant
            lo <= seg_start <= hi <= v@.len(),
            g == v@.subrange(lo as int, hi as int),
            split_rec(g, c, seg_start - lo) == split_char(g, c).skip(res@.len() as int),
            res@.len() <= split_char(g, c).len(),
            forall|k: int|
                0 <= k < res@.len() ==> lo <= (#[trigger] res@[k]).0 <= res@[k].1 <= hi
                    && split_char(g, c)[k] == v@.subrange(res@[k].0 as int, res@[k].1 as int),
        decreases hi - seg_start,
    {
        let ghost gs = split_char(g, c);
        let ghost k = res@.len() as int;
        match find_in_range(v, c, seg_start, hi) {
            Some(j) => {
                proof {
                    assert(forall|m: int|
                        seg_start - lo <= m < j - lo ==> g[m] == v@[m + lo] && g[m] != c);
                    assert(g[j - lo] == c);
                    lemma_find_from_in_range(g, c, seg_start - lo);
                    assert(find_from(g, c, seg_start - lo) == j - lo);
                    lemma_split_step(g, c, seg_start - lo);
                    assert(gs.skip(k)[0] == g.subrange(seg_start - lo, j - lo));
                    assert(g.subrange(seg_start - lo, j - lo) =~= v@.subrange(
                        seg_start as int,
                        j as int,
                    ));
                    assert(gs.skip(k).len() >= 1);
                    assert(k < gs.len());
                    vstd::seq_lib::lemma_seq_skip_index(gs, k, 0);
                    assert(gs.skip(k)[0] == gs[k]);
                    assert(gs[k] == v@.subrange(seg_start as int, j as int));
                    vstd::seq_lib::lemma_seq_skip_of_skip(gs, 1, k);
                    assert(gs.skip(k).skip(1) =~= seq![g.subrange(seg_start - lo, j - lo)].add(
                        split_rec(g, c, j + 1 - lo),
                    ).skip(1));
                    assert(seq![g.subrange(seg_start - lo, j - lo)].add(
                        split_rec(g, c, j + 1 - lo),
                    ).skip(1) =~= split_rec(g, c, j + 1 - lo));
                    assert(split_rec(g, c, j + 1 - lo) =~= gs.skip(k + 1));
                }
                res.push((seg_start, j));
                seg_start = j + 1;
            },
            None => {
                proof {
                    assert(forall|m: int|
                        seg_start - lo <= m < g.len() ==> g[m] == v@[m + lo] && g[m] != c);
                    lemma_find_from_in_range(g, c, seg_start - lo);
                    assert(find_from(g, c, seg_start - lo) == -1);
                    lemma_split_step(g, c, seg_start - lo);
                    assert(gs.skip(k)[0] == g.subrange(seg_start - lo, g.len() as int));
                    assert(g.subrange(seg_start - lo, g.len() as int) =~= v@.subrange(
                        seg_start as int,
                        hi as int,
                    ));
                    assert(gs.skip(k).len() >= 1);
                    assert(k < gs.len());
                    vstd::seq_lib::lemma_seq_skip_index(gs, k, 0);
                    assert(gs.skip(k)[0] == gs[k]);
                    assert(gs[k] == v@.subrange(seg_start as int, hi as int));
                    assert(gs.skip(k).len() == 1);
                    assert(gs.len() == k + 1);
                }
                res.push((seg_start, hi));
                return res;
            },
        }
    }
}


/// Hexadecimal digit.
pub open spec fn is_hex_digit(c: char) -> bool {
    is_digit(c) || ('a' <= c && c <= 'f') || ('A' <= c && c <= 'F')
}

/// A 16-bit group of an IPv6 literal: one to four hexadecimal digits.
pub open spec fn is_h16(g: Seq<char>) -> bool {
    1 <= g.len() <= 4 && forall|i: int| 0 <= i < g.len() ==> is_hex_digit(#[trigger] g[i])
}

/// A decimal octet as written inside an embedded IPv4 suffix:
/// one to three digits, no leading zero, value at most 255.
pub open spec fn is_strict_octet(g: Seq<char>) -> bool {
    1 <= g.len() <= 3 && all_digits(g) && (g.len() > 1 ==> g[0] != '0') && dec_val(g) <= 255
}

/// An embedded IPv4 suffix of an IPv6 literal: a strict dotted quad.
pub open spec fn is_quad(g: Seq<char>) -> bool {
    let ps = split_char(g, '.');
    ps.len() == 4 && forall|i: int| 0 <= i < 4 ==> is_strict_octet(#[trigger] ps[i])
}

pub open spec fn all_h16(gs: Seq<Seq<char>>, lo: int, hi: int) -> bool {
    forall|i: int| lo <= i < hi ==> is_h16(#[trigger] gs[i])
}

/// The groups from `lo` on are all 16-bit groups, the last possibly
/// an embedded IPv4 suffix.
pub open spec fn tail_ok(gs: Seq<Seq<char>>, lo: int) -> bool {
    all_h16(gs, lo, gs.len() as int) || (lo < gs.len() && all_h16(gs, lo, gs.len() - 1) && is_quad(
        gs[gs.len() - 1],
    ))
}

/// How many 16-bit groups the groups from `lo` on stand for: an
/// embedded IPv4 suffix counts as two.
pub open spec fn tail_weight(gs: Seq<Seq<char>>, lo: int) -> int {
    if lo < gs.len() && is_quad(gs[gs.len() - 1]) {
        gs.len() - lo + 1
    } else {
        gs.len() - lo
    }
}

/// A valid IPv6 literal: eight groups, or six and an embedded IPv4
/// suffix, or a form shortened by one `::`, which stands for at least
/// one zero group.  Splitting on `:` turns the `::` into one empty
/// segment in the middle, two at an end, or three for `::` alone.
pub open spec fn is_ipv6_chars(t: Seq<char>) -> bool {
    let gs = split_char(t, ':');
    let n = gs.len() as int;
    (n == 8 && all_h16(gs, 0, 8))
    || (n == 7 && all_h16(gs, 0, 6) && is_quad(gs[6]))
    || (n == 3 && gs[0].len() == 0 && gs[1].len() == 0 && gs[2].len() == 0)
    || (n >= 3 && gs[0].len() == 0 && gs[1].len() == 0 && tail_ok(gs, 2) && tail_weight(gs, 2) <= 7)
    || (n >= 3 && gs[n - 1].len() == 0 && gs[n - 2].len() == 0 && all_h16(gs, 0, n - 2) && n - 2 <= 7)
    || (exists|i: int| 1 <= i <= n - 2 && (#[trigger] gs[i]).len() == 0 && all_h16(gs, 0, i)
        && tail_ok(gs, i + 1) && i + tail_weight(gs, i + 1) <= 7)
}

fn is_hex_digit_exec(c: char) -> (b: bool)
    ensures
        b == is_hex_digit(c),
{
    (c >= '0' && c <= '9') || (c >= 'a' && c <= 'f') || (c >= 'A' && c <= 'F')
}

/// Checks that `[lo, hi)` of `v` holds decimal digits only.
pub(crate) fn all_digits_in(v: &Vec<char>, lo: usize, hi: usize) -> (b: bool)
    requires
        lo <= hi <= v@.len(),
    ensures
        b == all_digits(v@.subrange(lo as int, hi as int)),
{
    let ghost g = v@.subrange(lo as int, hi as int);
    let mut i = lo;
    while i < hi
        invariant
            lo <= i <= hi <= v@.len(),
            g == v@.subrange(lo as int, hi as int),
            forall|k: int| 0 <= k < i - lo ==> is_digit(#[trigger] g[k]),
        decreases hi - i,
    {
        let c = v[i];
        if !(c >= '0' && c <= '9') {
            proof {
                assert(g[i - lo] == v@[i as int]);
            }
            return false;
        }
        i = i + 1;
    }
    true
}

/// Checks that `[lo, hi)` of `v` is a 16-bit hexadecimal group.
fn is_h16_range(v: &Vec<char>, lo: usize, hi: usize) -> (b: bool)
    requires
        lo <= hi <= v@.len(),
    ensures
        b == is_h16(v@.subrange(lo as int, hi as int)),
{
    let ghost g = v@.subrange(lo as int, hi as int);
    let len = hi - lo;
    if len < 1 || len > 4 {
        return false;
    }
    let mut i = lo;
    while i < hi
        invariant
            lo <= i <= hi <= v@.len(),
            g == v@.subrange(lo as int, hi as int),
            1 <= g.len() <= 4,
            forall|k: int| 0 <= k < i - lo ==> is_hex_digit(#[trigger] g[k]),
        decreases hi - i,
    {
        if !is_hex_digit_exec(v[i]) {
            proof {
                assert(g[i - lo] == v@[i as int]);
            }
            return false;
        }
        i = i + 1;
    }
    true
}

/// A digit string of at most three digits has a small value.
proof fn lemma_dec_val_small(s: Seq<char>)
    requires
        all_digits(s),
        s.len() <= 3,
    ensures
        0 <= dec_val(s),
        s.len() <= 3 ==> dec_val(s) < 1000,
        s.len() <= 2 ==> dec_val(s) < 100,
        s.len() <= 1 ==> dec_val(s) < 10,
    decreases s.len(),
{
    if s.len() > 0 {
        assert(all_digits(s.drop_last())) by {
            assert(forall|i: int| 0 <= i < s.len() - 1 ==> #[trigger] s.drop_last()[i] == s[i]);
        }
        lemma_dec_val_small(s.drop_last());
        assert(digit_val(s.last()) <= 9);
    }
}

/// Checks that `[lo, hi)` of `v` is a strict decimal octet.
fn is_strict_octet_range(v: &Vec<char>, lo: usize, hi: usize) -> (b: bool)
    requires
        lo <= hi <= v@.len(),
    ensures
        b == is_strict_octet(v@.subrange(lo as int, hi as int)),
{
    let ghost g = v@.subrange(lo as int, hi as int);
    let len = hi - lo;
    if len < 1 || len > 3 {
        return false;
    }
    if !all_digits_in(v, lo, hi) {
        return false;
    }
    if len > 1 && v[lo] == '0' {
        return false;
    }
    proof {
        assert(is_digit(g[0]));
        assert(uint_digits(g) == g);
        lemma_dec_val_small(g);
    }
    match parse_u32_in(v, lo, hi) {
        Some(x) => x <= 255,
        None => false,
    }
}

/// Every split has at least one segment.
proof fn lemma_split_len(s: Seq<char>, c: char)
    ensures
        split_char(s, c).len() >= 1,
{
    lemma_split_step(s, c, 0);
}

/// Checks that `[lo, hi)` of `v` is an embedded IPv4 suffix.
fn is_quad_range(v: &Vec<char>, lo: usize, hi: usize) -> (b: bool)
    requires
        lo <= hi <= v@.len(),
    ensures
        b == is_quad(v@.subrange(lo as int, hi as int)),
{
    let ghost g = v@.subrange(lo as int, hi as int);
    let ghost ps = split_char(g, '.');
    let pb = split_bounds(v, '.', lo, hi);
    if pb.len() != 4 {
        return false;
    }
    let mut k: usize = 0;
    while k < 4
        invariant
            0 <= k <= 4,
            lo <= hi <= v@.len(),
            g == v@.subrange(lo as int, hi as int),
            ps == split_char(g, '.'),
            ps.len() == 4,
            pb@.len() == 4,
            forall|j: int|
                0 <= j < 4 ==> lo <= (#[trigger] pb@[j]).0 <= pb@[j].1 <= hi && ps[j]
                    == v@.subrange(pb@[j].0 as int, pb@[j].1 as int),
            forall|j: int| 0 <= j < k ==> is_strict_octet(#[trigger] ps[j]),
        decreases 4 - k,
    {
        let a = pb[k].0;
        let b = pb[k].1;
        if !is_strict_octet_range(v, a, b) {
            return false;
        }
        k = k + 1;
    }
    true
}


pub(crate) proof fn lemma_find_char_at(s: Seq<char>, c: char, j: int)
    requires
        0 <= j < s.len(),
        s[j] == c,
        forall|k: int| 0 <= k < j ==> s[k] != c,
    ensures
        find_char(s, c) == j,
{
    lemma_find_from_in_range(s, c, 0);
}

pub(crate) proof fn lemma_find_char_none(s: Seq<char>, c: char)
    requires
        forall|k: int| 0 <= k < s.len() ==> s[k] != c,
    ensures
        find_char(s, c) == -1,
{
    lemma_find_from_in_range(s, c, 0);
}

proof fn lemma_split_rec_len(s: Seq<char>, c: char, i: int)
    requires
        0 <= i <= s.len(),
    ensures
        split_rec(s, c, i).len() >= 1,
{
    lemma_split_step(s, c, i);
}

/// Checks that the groups `[lo, hi)` are all 16-bit groups.
fn check_all_h16(
    v: &Vec<char>,
    gb: &Vec<(usize, usize)>,
    gs: Ghost<Seq<Seq<char>>>,
    lo: usize,
    hi: usize,
) -> (b: bool)
    requires
        gb@.len() == gs@.len(),
        forall|j: int|
            0 <= j < gs@.len() ==> (#[trigger] gb@[j]).0 <= gb@[j].1 <= v@.len() && gs@[j]
                == v@.subrange(gb@[j].0 as int, gb@[j].1 as int),
        lo <= hi <= gs@.len(),
    ensures
        b == all_h16(gs@, lo as int, hi as int),
{
    let mut k = lo;
    while k < hi
        invariant
            lo <= k <= hi <= gs@.len(),
            gb@.len() == gs@.len(),
            forall|j: int|
                0 <= j < gs@.len() ==> (#[trigger] gb@[j]).0 <= gb@[j].1 <= v@.len() && gs@[j]
                    == v@.subrange(gb@[j].0 as int, gb@[j].1 as int),
            forall|j: int| lo <= j < k ==> is_h16(#[trigger] gs@[j]),
        decreases hi - k,
    {
        let a = gb[k].0;
        let b2 = gb[k].1;
        if !is_h16_range(v, a, b2) {
            return false;
        }
        k = k + 1;
    }
    true
}

/// Checks the groups from `lo` on and computes their weight.
fn tail_check(v: &Vec<char>, gb: &Vec<(usize, usize)>, gs: Ghost<Seq<Seq<char>>>, lo: usize) -> (r:
    (bool, usize))
    requires
        gb@.len() == gs@.len(),
        forall|j: int|
            0 <= j < gs@.len() ==> (#[trigger] gb@[j]).0 <= gb@[j].1 <= v@.len() && gs@[j]
                == v@.subrange(gb@[j].0 as int, gb@[j].1 as int),
        lo <= gs@.len(),
    ensures
        r.0 == tail_ok(gs@, lo as int),
        r.1 <= 8 ==> r.1 == tail_weight(gs@, lo as int),
        r.1 > 8 ==> tail_weight(gs@, lo as int) > 8,
{
    let n = gb.len();
    let quad_last = if lo < n {
        let a = gb[n - 1].0;
        let b2 = gb[n - 1].1;
        is_quad_range(v, a, b2)
    } else {
        false
    };
    let all = check_all_h16(v, gb, gs, lo, n);
    let ok = if all {
        true
    } else if lo < n && quad_last {
        check_all_h16(v, gb, gs, lo, n - 1)
    } else {
        false
    };
    let base = n - lo;
    let w: usize = if base > 8 {
        9
    } else if quad_last && lo < n {
        base + 1
    } else {
        base
    };
    (ok, w)
}

/// Checks that `[lo, hi)` of `v` is a valid IPv6 literal.
fn is_ipv6_range(v: &Vec<char>, lo: usize, hi: usize) -> (b: bool)
    requires
        lo <= hi <= v@.len(),
    ensures
        b == is_ipv6_chars(v@.subrange(lo as int, hi as int)),
{
    let ghost t = v@.subrange(lo as int, hi as int);
    let ghost gs = split_char(t, ':');
    let gb = split_bounds(v, ':', lo, hi);
    let n = gb.len();
    proof {
        assert(gs.len() == n);
    }
    let ghost gsg = gs;
    let d1 = n == 8 && check_all_h16(v, &gb, Ghost(gs), 0, 8);
    let d2 = if n == 7 && check_all_h16(v, &gb, Ghost(gs), 0, 6) {
        proof {
            assert(gs[6] == v@.subrange(gb@[6].0 as int, gb@[6].1 as int));
        }
        is_quad_range(v, gb[6].0, gb[6].1)
    } else {
        false
    };
    let d3 = n == 3 && gb[0].0 == gb[0].1 && gb[1].0 == gb[1].1 && gb[2].0 == gb[2].1;
    let d4 = if n >= 3 && gb[0].0 == gb[0].1 && gb[1].0 == gb[1].1 {
        let (ok, w) = tail_check(v, &gb, Ghost(gs), 2);
        ok && w <= 7
    } else {
        false
    };
    let d5 = n >= 3 && gb[n - 1].0 == gb[n - 1].1 && gb[n - 2].0 == gb[n - 2].1 && n - 2 <= 7
        && check_all_h16(v, &gb, Ghost(gs), 0, n - 2);
    let mut found = false;
    if n >= 3 {
        let mut i: usize = 1;
        while i <= n - 2 && !found
            invariant
                1 <= i <= n - 1,
                3 <= n == gb@.len() == gs.len(),
                lo <= hi <= v@.len(),
                t == v@.subrange(lo as int, hi as int),
                gs == split_char(t, ':'),
                forall|j: int|
                    0 <= j < gs.len() ==> lo <= (#[trigger] gb@[j]).0 <= gb@[j].1 <= hi && gs[j]
                        == v@.subrange(gb@[j].0 as int, gb@[j].1 as int),
                found ==> (exists|m: int|
                    1 <= m <= n - 2 && (#[trigger] gs[m]).len() == 0 && all_h16(gs, 0, m)
                        && tail_ok(gs, m + 1) && m + tail_weight(gs, m + 1) <= 7),
                !found ==> forall|m: int|
                    1 <= m < i ==> !((#[trigger] gs[m]).len() == 0 && all_h16(gs, 0, m) && tail_ok(
                        gs,
                        m + 1,
                    ) && m + tail_weight(gs, m + 1) <= 7),
            decreases n - i,
        {
            if gb[i].0 == gb[i].1 && check_all_h16(v, &gb, Ghost(gs), 0, i) {
                let (ok, w) = tail_check(v, &gb, Ghost(gs), i + 1);
                if ok && i <= 7 && w <= 7 - i {
                    found = true;
                }
            }
            i = i + 1;
        }
    }
    let b = d1 || d2 || d3 || d4 || d5 || found;
    proof {
        let nn = gs.len() as int;
        if !found && n >= 3 {
            assert(!(exists|m: int|
                1 <= m <= nn - 2 && (#[trigger] gs[m]).len() == 0 && all_h16(gs, 0, m) && tail_ok(
                    gs,
                    m + 1,
                ) && m + tail_weight(gs, m + 1) <= 7));
        }
        assert(b == is_ipv6_chars(t));
    }
    b
}

/// The address value named by the dot-separated component values:
/// missing octets count as zero just before the last component.
pub open spec fn v4_value(vals: Seq<int>) -> int {
    if vals.len() == 1 {
        vals[0]
    } else if vals.len() == 2 {
        vals[0] * 0x1000000 + vals[1]
    } else if vals.len() == 3 {
        vals[0] * 0x1000000 + vals[1] * 0x10000 + vals[2]
    } else {
        vals[0] * 0x1000000 + vals[1] * 0x10000 + vals[2] * 0x100 + vals[3]
    }
}

/// IPv4 normalization: one component over 255 is read as a 32-bit
/// value; one to four components, each at most 255, are completed
/// with zeros before the last; anything else is rejected.
pub open spec fn norm_v4(t: Seq<char>) -> Option<Seq<char>> {
    let ps = split_char(t, '.');
    if ps.len() == 1 && is_uint_str(ps[0]) && 255 < uint_val(ps[0]) && uint_val(ps[0])
        <= u32::MAX {
        Some(ipv4_str(uint_val(ps[0]) as u32))
    } else if 1 <= ps.len() <= 4 && (forall|i: int|
        0 <= i < ps.len() ==> is_uint_str(#[trigger] ps[i]) && uint_val(ps[i]) <= 255) {
        Some(ipv4_str(v4_value(ps.map_values(|p: Seq<char>| uint_val(p))) as u32))
    } else {
        None
    }
}

/// Normalizes the IPv4 form held in `[lo, hi)` of `v`.
fn norm_v4_range(v: &Vec<char>, lo: usize, hi: usize) -> (r: Option<String>)
    requires
        lo <= hi <= v@.len(),
    ensures
        ({
            let t = v@.subrange(lo as int, hi as int);
            match r {
                Some(out) => norm_v4(t) == Some(out@),
                None => norm_v4(t) is None,
            }
        }),
{
    let ghost t = v@.subrange(lo as int, hi as int);
    let ghost ps = split_char(t, '.');
    let pb = split_bounds(v, '.', lo, hi);
    let n = pb.len();
    proof {
        lemma_split_len(t, '.');
    }
    if n == 1 {
        proof {
            lemma_split_step(t, '.', 0);
            if find_from(t, '.', 0) >= 0 {
                lemma_split_rec_len(t, '.', find_from(t, '.', 0) + 1);
            }
            assert(t.subrange(0, t.len() as int) =~= t);
            assert(ps[0] == t);
        }
        match parse_u32_in(v, pb[0].0, pb[0].1) {
            Some(x) => {
                proof {
                    assert(ps[0] == v@.subrange(pb@[0].0 as int, pb@[0].1 as int));
                    if x <= 255 {
                        let vals = ps.map_values(|p: Seq<char>| uint_val(p));
                        assert(vals[0] == uint_val(ps[0]));
                        assert(v4_value(vals) == x);
                    }
                }
                Some(ipv4_string(x))
            },
            None => None,
        }
    } else if n <= 4 {
        let mut nums: Vec<u32> = Vec::new();
        let mut k: usize = 0;
        while k < n
            invariant
                0 <= k <= n == pb@.len(),
                2 <= n <= 4,
                lo <= hi <= v@.len(),
                t == v@.subrange(lo as int, hi as int),
                ps == split_char(t, '.'),
                ps.len() == n,
                forall|j: int|
                    0 <= j < n ==> lo <= (#[trigger] pb@[j]).0 <= pb@[j].1 <= hi && ps[j]
                        == v@.subrange(pb@[j].0 as int, pb@[j].1 as int),
                nums@.len() == k,
                forall|j: int|
                    0 <= j < k ==> is_uint_str(#[trigger] ps[j]) && uint_val(ps[j]) == nums@[j]
                        && nums@[j] <= 255,
            decreases n - k,
        {
            match parse_u32_in(v, pb[k].0, pb[k].1) {
                Some(x) => {
                    if x > 255 {
                        return None;
                    }
                    nums.push(x);
                },
                None => {
                    return None;
                },
            }
            k = k + 1;
        }
        let val: u32 = if n == 2 {
            nums[0] * 0x1000000 + nums[1]
        } else if n == 3 {
            nums[0] * 0x1000000 + nums[1] * 0x10000 + nums[2]
        } else {
            nums[0] * 0x1000000 + nums[1] * 0x10000 + nums[2] * 0x100 + nums[3]
        };
        proof {
            let vals = ps.map_values(|p: Seq<char>| uint_val(p));
            assert(vals.len() == n);
            assert(forall|j: int| 0 <= j < n ==> #[trigger] vals[j] == uint_val(ps[j]));
            assert(v4_value(vals) == val);
        }
        Some(ipv4_string(val))
    } else {
        None
    }
}

/// Address normalization after trimming: an input with a colon must
/// be a valid IPv6 literal and passes through unchanged; anything
/// else is read as an IPv4 form.
pub open spec fn norm_addr_spec(t: Seq<char>) -> Option<Seq<char>> {
    if contains_char(t, ':') {
        if is_ipv6_chars(t) {
            Some(t)
        } else {
            None
        }
    } else {
        norm_v4(t)
    }
}

/// Full normalization: trim, split off a `/`-prefix-length if one is
/// present, and normalize the address part; the prefix length must be
/// an unsigned integer within the address family's bit width (32 for
/// IPv4, 128 for IPv6) and is kept verbatim.
pub open spec fn normalize_spec(s: Seq<char>) -> Option<Seq<char>> {
    let t = trim_spec(s);
    let j = find_char(t, '/');
    if j >= 0 {
        let pre = t.skip(j + 1);
        match norm_addr_spec(trim_spec(t.take(j))) {
            Some(nip) => if is_uint_str(pre) && uint_val(pre) <= (if contains_char(nip, ':') {
                128int
            } else {
                32int
            }) {
                Some(nip + seq!['/'] + pre)
            } else {
                None
            },
            None => None,
        }
    } else {
        norm_addr_spec(t)
    }
}

fn norm_addr(src: &str, v: &Vec<char>, lo: usize, hi: usize) -> (r: Option<String>)
    requires
        v@ == src@,
        lo <= hi <= v@.len(),
    ensures
        ({
            let t = v@.subrange(lo as int, hi as int);
            match r {
                Some(out) => norm_addr_spec(t) == Some(out@),
                None => norm_addr_spec(t) is None,
            }
        }),
{
    let ghost t = v@.subrange(lo as int, hi as int);
    match find_in_range(v, ':', lo, hi) {
        Some(cpos) => {
            proof {
                assert(t[cpos - lo] == v@[cpos as int]);
                assert(forall|k: int| 0 <= k < cpos - lo ==> #[trigger] t[k] == v@[k + lo]);
                lemma_find_char_at(t, ':', cpos - lo);
            }
            if is_ipv6_range(v, lo, hi) {
                let out = src.substring_char(lo, hi);
                Some(out.to_owned())
            } else {
                None
            }
        },
        None => {
            proof {
                assert(forall|k: int| 0 <= k < t.len() ==> #[trigger] t[k] == v@[k + lo]);
                lemma_find_char_none(t, ':');
            }
            norm_v4_range(v, lo, hi)
        },
    }
}

/// Appends one character of an unsigned-integer literal.
fn push_uint_char(out: &mut String, c: char)
    requires
        is_digit(c) || c == '+',
    ensures
        final(out)@ == old(out)@ + seq![c],
{
    let t: &str = if c == '0' {
        "0"
    } else if c == '1' {
        "1"
    } else if c == '2' {
        "2"
    } else if c == '3' {
        "3"
    } else if c == '4' {
        "4"
    } else if c == '5' {
        "5"
    } else if c == '6' {
        "6"
    } else if c == '7' {
        "7"
    } else if c == '8' {
        "8"
    } else if c == '9' {
        "9"
    } else {
        "+"
    };
    proof {
        reveal_strlit("0");
        reveal_strlit("1");
        reveal_strlit("2");
        reveal_strlit("3");
        reveal_strlit("4");
        reveal_strlit("5");
        reveal_strlit("6");
        reveal_strlit("7");
        reveal_strlit("8");
        reveal_strlit("9");
        reveal_strlit("+");
        assert(t@ =~= seq![c]);
    }
    out.append(t);
}

/// Appends the unsigned-integer literal held in `[lo, hi)` of `v`.
fn push_uint_chars(out: &mut String, v: &Vec<char>, lo: usize, hi: usize)
    requires
        lo <= hi <= v@.len(),
        is_uint_str(v@.subrange(lo as int, hi as int)),
    ensures
        final(out)@ == old(out)@ + v@.subrange(lo as int, hi as int),
{
    let ghost g = v@.subrange(lo as int, hi as int);
    proof {
        assert forall|k: int| 0 <= k < g.len() implies is_digit(#[trigger] g[k]) || g[k] == '+' by {
            if g[0] == '+' {
                if k >= 1 {
                    assert(g.skip(1)[k - 1] == g[k]);
                    assert(is_digit(g.skip(1)[k - 1]));
                }
            } else {
                assert(uint_digits(g) == g);
                assert(is_digit(g[k]));
            }
        }
    }
    let mut i = lo;
    while i < hi
        invariant
            lo <= i <= hi <= v@.len(),
            g == v@.subrange(lo as int, hi as int),
            forall|k: int| 0 <= k < g.len() ==> is_digit(#[trigger] g[k]) || g[k] == '+',
            out@ == old(out)@ + g.take(i - lo),
        decreases hi - i,
    {
        let c = v[i];
        proof {
            assert(g[i - lo] == v@[i as int]);
        }
        push_uint_char(out, c);
        proof {
            assert(old(out)@ + g.take(i - lo) + seq![c] =~= old(out)@ + g.take(i - lo + 1));
        }
        i = i + 1;
    }
    proof {
        assert(g.take(g.len() as int) =~= g);
    }
}

/// Normalizes an address string: IPv4 shorthand is expanded, a single
/// large value is read as a 32-bit address, a valid IPv6 literal
/// passes through, and a `/`-prefix length is kept verbatim.
pub fn normalize_ip(input: &str) -> (r: Option<String>)
    ensures
        match r {
            Some(out) => normalize_spec(input@) == Some(out@),
            None => normalize_spec(input@) is None,
        },
{
    let v = chars_of(input);
    let n = v.len();
    proof {
        assert(v@.subrange(0, v@.len() as int) =~= v@);
    }
    let (ts, te) = trim_bounds_range(&v, 0, n);
    let ghost t = trim_spec(input@);
    proof {
        assert(t == v@.subrange(ts as int, te as int));
    }
    match find_in_range(&v, '/', ts, te) {
        Some(j) => {
            let ghost jj = j - ts;
            proof {
                assert(t[jj] == v@[j as int]);
                assert(forall|k: int| 0 <= k < jj ==> #[trigger] t[k] == v@[k + ts]);
                lemma_find_char_at(t, '/', jj);
                assert(t.skip(jj + 1) =~= v@.subrange(j + 1, te as int));
                assert(t.take(jj) =~= v@.subrange(ts as int, j as int));
            }
            let p = match parse_u32_in(&v, j + 1, te) {
                Some(p) => p,
                None => {
                    return None;
                },
            };
            let (a2, ae) = trim_bounds_range(&v, ts, j);
            match norm_addr(input, &v, a2, ae) {
                Some(out) => {
                    let nv = chars_of(out.as_str());
                    let m = nv.len();
                    let max_prefix: u32 = match find_in_range(&nv, ':', 0, m) {
                        Some(cp) => {
                            proof {
                                lemma_find_char_at(nv@, ':', cp as int);
                            }
                            128
                        },
                        None => {
                            proof {
                                lemma_find_char_none(nv@, ':');
                            }
                            32
                        },
                    };
                    if p > max_prefix {
                        return None;
                    }
                    let mut out = out;
                    push_slash(&mut out);
                    push_uint_chars(&mut out, &v, j + 1, te);
                    proof {
                        let pre = t.skip(jj + 1);
                        let nip = norm_addr_spec(trim_spec(t.take(jj))).unwrap();
                        assert(out@ =~= nip + seq!['/'] + pre);
                    }
                    Some(out)
                },
                None => None,
            }
        },
        None => {
            proof {
                assert(forall|k: int| 0 <= k < t.len() ==> #[trigger] t[k] == v@[k + ts]);
                lemma_find_char_none(t, '/');
            }
            norm_addr(input, &v, ts, te)
        },
    }
}


/// Whether a string looks address-like: a colon anywhere, or only
/// digits and dots before any `/`.  A syntactic routing heuristic,
/// not a validity check.
pub open spec fn digits_dots(s: Seq<char>) -> bool {
    forall|i: int| 0 <= i < s.len() ==> is_digit(#[trigger] s[i]) || s[i] == '.'
}

pub open spec fn is_ip_like_spec(s: Seq<char>) -> bool {
    let t = trim_spec(s);
    if contains_char(t, ':') {
        true
    } else {
        let j = find_char(t, '/');
        let ip = if j >= 0 {
            t.take(j)
        } else {
            t
        };
        digits_dots(ip)
    }
}

/// Whether a string looks like an address or CIDR block.
pub fn is_ip_like(input: &str) -> (b: bool)
    ensures
        b == is_ip_like_spec(input@),
{
    let v = chars_of(input);
    let n = v.len();
    proof {
        assert(v@.subrange(0, v@.len() as int) =~= v@);
    }
    let (ts, te) = trim_bounds_range(&v, 0, n);
    let ghost t = trim_spec(input@);
    match find_in_range(&v, ':', ts, te) {
        Some(cpos) => {
            proof {
                assert(t[cpos - ts] == v@[cpos as int]);
                assert(forall|k: int| 0 <= k < cpos - ts ==> #[trigger] t[k] == v@[k + ts]);
                lemma_find_char_at(t, ':', cpos - ts);
            }
            true
        },
        None => {
            proof {
                assert(forall|k: int| 0 <= k < t.len() ==> #[trigger] t[k] == v@[k + ts]);
                lemma_find_char_none(t, ':');
            }
            let hi = match find_in_range(&v, '/', ts, te) {
                Some(j) => {
                    proof {
                        assert(t[j - ts] == v@[j as int]);
                        lemma_find_char_at(t, '/', j - ts);
                        assert(t.take(j - ts) =~= v@.subrange(ts as int, j as int));
                    }
                    j
                },
                None => {
                    proof {
                        lemma_find_char_none(t, '/');
                    }
                    te
                },
            };
            let ghost ip = v@.subrange(ts as int, hi as int);
            let ok = digits_dots_in(&v, ts, hi);
            proof {
                assert(is_ip_like_spec(input@) == ok);
            }
            ok
        },
    }
}

/// Checks that `[lo, hi)` of `v` holds only digits and dots.
fn digits_dots_in(v: &Vec<char>, lo: usize, hi: usize) -> (b: bool)
    requires
        lo <= hi <= v@.len(),
    ensures
        b == digits_dots(v@.subrange(lo as int, hi as int)),
{
    let ghost g = v@.subrange(lo as int, hi as int);
    let mut i = lo;
    while i < hi
        invariant
            lo <= i <= hi <= v@.len(),
            g == v@.subrange(lo as int, hi as int),
            forall|k: int| 0 <= k < i - lo ==> is_digit(#[trigger] g[k]) || g[k] == '.',
        decreases hi - i,
    {
        let c = v[i];
        if !((c >= '0' && c <= '9') || c == '.') {
            proof {
                assert(g[i - lo] == v@[i as int]);
            }
            return false;
        }
        i = i + 1;
    }
    true
}

/// Whether a string is CIDR notation: exactly an address, a `/`, and
/// a prefix length within the family's bit width (32 for IPv4, 128
/// for IPv6).
pub open spec fn is_cidr_spec(s: Seq<char>) -> bool {
    let j = find_char(s, '/');
    if j >= 0 {
        let pre = s.skip(j + 1);
        is_uint_str(pre) && uint_val(pre) <= 255 && match normalize_spec(s.take(j)) {
            Some(nip) => uint_val(pre) <= (if contains_char(nip, ':') {
                128int
            } else {
                32int
            }),
            None => false,
        }
    } else {
        false
    }
}

/// Whether the input is a valid CIDR block.
pub fn is_cidr(input: &str) -> (b: bool)
    ensures
        b == is_cidr_spec(input@),
{
    let v = chars_of(input);
    let n = v.len();
    match find_in_range(&v, '/', 0, n) {
        Some(j) => {
            proof {
                lemma_find_char_at(v@, '/', j as int);
                assert(v@.skip(j + 1) =~= v@.subrange(j + 1, n as int));
            }
            let p = match parse_u32_in(&v, j + 1, n) {
                Some(p) => p,
                None => {
                    return false;
                },
            };
            if p > 255 {
                return false;
            }
            let ip_str = input.substring_char(0, j);
            proof {
                assert(ip_str@ == v@.take(j as int));
            }
            match normalize_ip(ip_str) {
                Some(nip) => {
                    let nv = chars_of(nip.as_str());
                    let m = nv.len();
                    let max_prefix: u32 = match find_in_range(&nv, ':', 0, m) {
                        Some(cp) => {
                            proof {
                                lemma_find_char_at(nv@, ':', cp as int);
                            }
                            128
                        },
                        None => {
                            proof {
                                lemma_find_char_none(nv@, ':');
                            }
                            32
                        },
                    };
                    p <= max_prefix
                },
                None => false,
            }
        },
        None => {
            proof {
                lemma_find_char_none(v@, '/');
            }
            false
        },
    }
}

/// The normalized address part of a CIDR block or plain address; on
/// normalization failure the original address text is handed back
/// unchanged.
pub open spec fn extract_spec(s: Seq<char>) -> Seq<char> {
    let j = find_char(s, '/');
    let ip = if j >= 0 {
        s.take(j)
    } else {
        s
    };
    match normalize_spec(ip) {
        Some(nip) => nip,
        None => ip,
    }
}

/// Extracts the address part of a CIDR block, normalized when possible.
pub fn extract_ip_from_cidr(input: &str) -> (r: String)
    ensures
        r@ == extract_spec(input@),
{
    let v = chars_of(input);
    let n = v.len();
    let hi = match find_in_range(&v, '/', 0, n) {
        Some(j) => {
            proof {
                lemma_find_char_at(v@, '/', j as int);
            }
            j
        },
        None => {
            proof {
                lemma_find_char_none(v@, '/');
                assert(v@.take(n as int) =~= v@);
            }
            n
        },
    };
    let ip_str = input.substring_char(0, hi);
    proof {
        assert(ip_str@ == v@.take(hi as int));
    }
    match normalize_ip(ip_str) {
        Some(nip) => nip,
        None => ip_str.to_owned(),
    }
}


proof fn lemma_trim_front_no_lead(s: Seq<char>)
    ensures
        trim_front(s).len() > 0 ==> !is_space(trim_front(s)[0]),
    decreases s.len(),
{
    if s.len() > 0 && is_space(s[0]) {
        lemma_trim_front_no_lead(s.skip(1));
    }
}

proof fn lemma_trim_back_no_trail(s: Seq<char>)
    ensures
        trim_back(s).len() > 0 ==> !is_space(trim_back(s).last()),
    decreases s.len(),
{
    if s.len() > 0 && is_space(s.last()) {
        lemma_trim_back_no_trail(s.drop_last());
    }
}

proof fn lemma_trim_back_prefix(s: Seq<char>)
    ensures
        trim_back(s).len() <= s.len(),
        forall|i: int| 0 <= i < trim_back(s).len() ==> #[trigger] trim_back(s)[i] == s[i],
    decreases s.len(),
{
    if s.len() > 0 && is_space(s.last()) {
        lemma_trim_back_prefix(s.drop_last());
        assert(forall|i: int| 0 <= i < s.len() - 1 ==> #[trigger] s.drop_last()[i] == s[i]);
    }
}

/// Trimming is idempotent.
proof fn lemma_trim_idempotent(s: Seq<char>)
    ensures
        trim_spec(trim_spec(s)) == trim_spec(s),
{
    let f = trim_front(s);
    let t = trim_back(f);
    lemma_trim_front_no_lead(s);
    lemma_trim_back_prefix(f);
    if t.len() > 0 {
        assert(t[0] == f[0]);
        assert(!is_space(t[0]));
    }
    assert(trim_front(t) == t);
    lemma_trim_back_no_trail(f);
    assert(trim_back(t) == t);
}

proof fn lemma_digit_char_val(d: int)
    requires
        0 <= d <= 9,
    ensures
        is_digit(digit_char(d)),
        digit_val(digit_char(d)) == d,
{
}

proof fn lemma_dec_str_digits(n: int)
    requires
        n >= 0,
    ensures
        all_digits(dec_str(n)),
        dec_str(n).len() >= 1,
    decreases n,
{
    if n < 10 {
        lemma_digit_char_val(n);
        assert forall|i: int| 0 <= i < dec_str(n).len() implies is_digit(#[trigger] dec_str(n)[i]) by {
            assert(dec_str(n)[i] == digit_char(n));
        }
    } else {
        lemma_dec_str_digits(n / 10);
        lemma_digit_char_val(n % 10);
        let x = dec_str(n / 10);
        let c = digit_char(n % 10);
        assert forall|i: int| 0 <= i < dec_str(n).len() implies is_digit(#[trigger] dec_str(n)[i]) by {
            if i < x.len() {
                assert(dec_str(n)[i] == x[i]);
            } else {
                assert(dec_str(n)[i] == c);
            }
        }
    }
}

proof fn lemma_dec_val_dec_str(n: int)
    requires
        n >= 0,
    ensures
        dec_val(dec_str(n)) == n,
    decreases n,
{
    if n < 10 {
        let s = seq![digit_char(n)];
        assert(s.drop_last() =~= Seq::<char>::empty());
        assert(dec_val(Seq::<char>::empty()) == 0);
        assert(s.last() == digit_char(n));
        lemma_digit_char_val(n);
        assert(dec_val(s) == digit_val(digit_char(n)));
    } else {
        lemma_dec_val_dec_str(n / 10);
        let x = dec_str(n / 10);
        let c = digit_char(n % 10);
        assert(x.push(c).drop_last() =~= x);
        assert(x.push(c).last() == c);
        lemma_digit_char_val(n % 10);
        assert(dec_val(dec_str(n)) == dec_val(x) * 10 + digit_val(c));
        vstd::arithmetic::div_mod::lemma_fundamental_div_mod(n, 10);
    }
}

proof fn lemma_find_from_at(s: Seq<char>, c: char, i: int, j: int)
    requires
        0 <= i <= j < s.len(),
        s[j] == c,
        forall|k: int| i <= k < j ==> s[k] != c,
    ensures
        find_from(s, c, i) == j,
{
    lemma_find_from_in_range(s, c, i);
}

proof fn lemma_find_from_none(s: Seq<char>, c: char, i: int)
    requires
        0 <= i <= s.len(),
        forall|k: int| i <= k < s.len() ==> s[k] != c,
    ensures
        find_from(s, c, i) == -1,
{
    lemma_find_from_in_range(s, c, i);
}

/// The dotted-quad rendering splits on dots back into the four octet
/// renderings, each holding digits only.
proof fn lemma_split_ipv4_str(n: u32)
    ensures
        ({
            let o0 = n as int / 0x1000000 % 256;
            let o1 = n as int / 0x10000 % 256;
            let o2 = n as int / 0x100 % 256;
            let o3 = n as int % 256;
            let s = ipv4_str(n);
            let ps = split_char(s, '.');
            ps =~= seq![dec_str(o0), dec_str(o1), dec_str(o2), dec_str(o3)] && (forall|x: int|
                0 <= x < s.len() ==> is_digit(#[trigger] s[x]) || s[x] == '.')
        }),
{
    let o0 = n as int / 0x1000000 % 256;
    let o1 = n as int / 0x10000 % 256;
    let o2 = n as int / 0x100 % 256;
    let o3 = n as int % 256;
    let d0 = dec_str(o0);
    let d1 = dec_str(o1);
    let d2 = dec_str(o2);
    let d3 = dec_str(o3);
    let s = ipv4_str(n);
    lemma_dec_str_digits(o0);
    lemma_dec_str_digits(o1);
    lemma_dec_str_digits(o2);
    lemma_dec_str_digits(o3);
    let l0 = d0.len() as int;
    let l1 = d1.len() as int;
    let l2 = d2.len() as int;
    let l3 = d3.len() as int;
    let p1 = l0;
    let p2 = l0 + 1 + l1;
    let p3 = l0 + 1 + l1 + 1 + l2;
    assert(s.len() == l0 + l1 + l2 + l3 + 3);
    assert forall|x: int| 0 <= x < s.len() implies (is_digit(#[trigger] s[x]) || s[x] == '.') && (
    if x < p1 {
        s[x] == d0[x]
    } else if x == p1 {
        s[x] == '.'
    } else if x < p2 {
        s[x] == d1[x - p1 - 1]
    } else if x == p2 {
        s[x] == '.'
    } else if x < p3 {
        s[x] == d2[x - p2 - 1]
    } else if x == p3 {
        s[x] == '.'
    } else {
        s[x] == d3[x - p3 - 1]
    }) by {
        if x < p1 {
            assert(s[x] == d0[x]);
        } else if x == p1 {
            assert(s[x] == '.');
        } else if x < p2 {
            assert(s[x] == d1[x - p1 - 1]);
        } else if x == p2 {
            assert(s[x] == '.');
        } else if x < p3 {
            assert(s[x] == d2[x - p2 - 1]);
        } else if x == p3 {
            assert(s[x] == '.');
        } else {
            assert(s[x] == d3[x - p3 - 1]);
        }
    }
    assert(s[p1] == '.');
    assert(s[p2] == '.');
    assert(s[p3] == '.');
    lemma_find_from_at(s, '.', 0, p1);
    lemma_split_step(s, '.', 0);
    assert(s.subrange(0, p1) =~= d0);
    lemma_find_from_at(s, '.', p1 + 1, p2);
    lemma_split_step(s, '.', p1 + 1);
    assert(s.subrange(p1 + 1, p2) =~= d1);
    lemma_find_from_at(s, '.', p2 + 1, p3);
    lemma_split_step(s, '.', p2 + 1);
    assert(s.subrange(p2 + 1, p3) =~= d2);
    lemma_find_from_none(s, '.', p3 + 1);
    lemma_split_step(s, '.', p3 + 1);
    assert(s.subrange(p3 + 1, s.len() as int) =~= d3);
    assert(split_char(s, '.') =~= seq![d0, d1, d2, d3]);
}


proof fn lemma_octets_reassemble(n: u32)
    ensures
        (n as int / 0x1000000 % 256) * 0x1000000 + (n as int / 0x10000 % 256) * 0x10000 + (n as int
            / 0x100 % 256) * 0x100 + (n as int % 256) == n as int,
{
    assert((n / 0x1000000 % 256) * 0x1000000 + (n / 0x10000 % 256) * 0x10000 + (n / 0x100 % 256)
        * 0x100 + (n % 256) == n) by (bit_vector);
}

/// Re-parsing a rendered dotted quad yields the same address text.
proof fn lemma_norm_v4_roundtrip(n: u32)
    ensures
        norm_v4(ipv4_str(n)) == Some(ipv4_str(n)),
{
    let o0 = n as int / 0x1000000 % 256;
    let o1 = n as int / 0x10000 % 256;
    let o2 = n as int / 0x100 % 256;
    let o3 = n as int % 256;
    let s = ipv4_str(n);
    let ps = split_char(s, '.');
    lemma_split_ipv4_str(n);
    assert(ps.len() == 4);
    assert(ps[0] == dec_str(o0) && ps[1] == dec_str(o1) && ps[2] == dec_str(o2) && ps[3] == dec_str(
        o3,
    ));
    assert(0 <= o0 < 256 && 0 <= o1 < 256 && 0 <= o2 < 256 && 0 <= o3 < 256);
    lemma_dec_str_digits(o0);
    lemma_dec_str_digits(o1);
    lemma_dec_str_digits(o2);
    lemma_dec_str_digits(o3);
    lemma_dec_val_dec_str(o0);
    lemma_dec_val_dec_str(o1);
    lemma_dec_val_dec_str(o2);
    lemma_dec_val_dec_str(o3);
    assert forall|i: int| 0 <= i < ps.len() implies is_uint_str(#[trigger] ps[i]) && uint_val(
        ps[i],
    ) <= 255 by {
        let d = ps[i];
        assert(d == dec_str(o0) || d == dec_str(o1) || d == dec_str(o2) || d == dec_str(o3));
        assert(is_digit(d[0]));
        assert(uint_digits(d) == d);
    }
    let vals = ps.map_values(|p: Seq<char>| uint_val(p));
    assert(vals.len() == 4);
    assert(vals[0] == uint_val(ps[0]) && vals[1] == uint_val(ps[1]) && vals[2] == uint_val(ps[2])
        && vals[3] == uint_val(ps[3]));
    assert(uint_val(ps[0]) == o0 && uint_val(ps[1]) == o1 && uint_val(ps[2]) == o2 && uint_val(
        ps[3],
    ) == o3);
    lemma_octets_reassemble(n);
    assert(v4_value(vals) == n as int);
    assert(v4_value(vals) as u32 == n);
}


proof fn lemma_trim_front_subchars(s: Seq<char>, c: char)
    requires
        forall|k: int| 0 <= k < s.len() ==> s[k] != c,
    ensures
        forall|k: int| 0 <= k < trim_front(s).len() ==> trim_front(s)[k] != c,
    decreases s.len(),
{
    if s.len() > 0 && is_space(s[0]) {
        assert(forall|k: int| 0 <= k < s.skip(1).len() ==> #[trigger] s.skip(1)[k] == s[k + 1]);
        lemma_trim_front_subchars(s.skip(1), c);
        assert forall|k: int| 0 <= k < trim_front(s).len() implies trim_front(s)[k] != c by {
            assert(trim_front(s)[k] == trim_front(s.skip(1))[k]);
        }
    } else {
        assert forall|k: int| 0 <= k < trim_front(s).len() implies trim_front(s)[k] != c by {
            assert(trim_front(s)[k] == s[k]);
        }
    }
}

proof fn lemma_trim_back_subchars(s: Seq<char>, c: char)
    requires
        forall|k: int| 0 <= k < s.len() ==> s[k] != c,
    ensures
        forall|k: int| 0 <= k < trim_back(s).len() ==> trim_back(s)[k] != c,
    decreases s.len(),
{
    if s.len() > 0 && is_space(s.last()) {
        assert(forall|k: int|
            0 <= k < s.drop_last().len() ==> #[trigger] s.drop_last()[k] == s[k]);
        lemma_trim_back_subchars(s.drop_last(), c);
        assert forall|k: int| 0 <= k < trim_back(s).len() implies trim_back(s)[k] != c by {
            assert(trim_back(s)[k] == trim_back(s.drop_last())[k]);
        }
    } else {
        assert forall|k: int| 0 <= k < trim_back(s).len() implies trim_back(s)[k] != c by {
            assert(trim_back(s)[k] == s[k]);
        }
    }
}

/// Trimming never introduces a character.
proof fn lemma_trim_subchars(s: Seq<char>, c: char)
    requires
        forall|k: int| 0 <= k < s.len() ==> s[k] != c,
    ensures
        forall|k: int| 0 <= k < trim_spec(s).len() ==> trim_spec(s)[k] != c,
{
    lemma_trim_front_subchars(s, c);
    lemma_trim_back_subchars(trim_front(s), c);
}

/// A trimmed text neither starts nor ends with whitespace.
proof fn lemma_trim_output_edges(s: Seq<char>)
    ensures
        trim_spec(s).len() > 0 ==> !is_space(trim_spec(s)[0]),
        trim_spec(s).len() > 0 ==> !is_space(trim_spec(s).last()),
{
    let f = trim_front(s);
    lemma_trim_front_no_lead(s);
    lemma_trim_back_no_trail(f);
    lemma_trim_back_prefix(f);
    if trim_spec(s).len() > 0 {
        assert(trim_back(f)[0] == f[0]);
    }
}

/// Address-level round trip: what address normalization returns is
/// trimmed, slash-free, of the same family, and normalizes to itself.
proof fn lemma_norm_addr_idempotent(t: Seq<char>, nip: Seq<char>)
    requires
        norm_addr_spec(t) == Some(nip),
        trim_spec(t) == t,
        !contains_char(t, '/'),
    ensures
        trim_spec(nip) == nip,
        !contains_char(nip, '/'),
        contains_char(nip, ':') == contains_char(t, ':'),
        nip.len() > 0,
        !is_space(nip[0]),
        !is_space(nip.last()),
        norm_addr_spec(nip) == Some(nip),
{
    if contains_char(t, ':') {
        assert(nip == t);
        assert(is_ipv6_chars(t));
        lemma_trim_idempotent(t);
        lemma_trim_output_edges(t);
        assert(t.len() > 0) by {
            lemma_find_from_in_range(t, ':', 0);
        }
    } else {
        assert(norm_v4(t) == Some(nip));
        let ps = split_char(t, '.');
        let k: u32 = if ps.len() == 1 && is_uint_str(ps[0]) && 255 < uint_val(ps[0]) && uint_val(
            ps[0],
        ) <= u32::MAX {
            lemma_dec_val_nonneg(uint_digits(ps[0]));
            uint_val(ps[0]) as u32
        } else {
            (v4_value(ps.map_values(|p: Seq<char>| uint_val(p))) as u32)
        };
        assert(nip == ipv4_str(k));
        lemma_split_ipv4_str(k);
        assert(nip.len() > 0);
        assert forall|x: int| 0 <= x < nip.len() implies nip[x] != ':' && nip[x] != '/'
            && !is_space(#[trigger] nip[x]) by {
            assert(is_digit(nip[x]) || nip[x] == '.');
        }
        lemma_find_char_none(nip, ':');
        lemma_find_char_none(nip, '/');
        assert(trim_front(nip) == nip);
        assert(trim_back(nip) == nip);
        lemma_norm_v4_roundtrip(k);
    }
}

/// Round trip: the string that normalization returns normalizes to
/// itself unchanged.
pub proof fn lemma_normalize_idempotent(s: Seq<char>, out: Seq<char>)
    requires
        normalize_spec(s) == Some(out),
    ensures
        normalize_spec(out) == Some(out),
{
    let t = trim_spec(s);
    let j = find_char(t, '/');
    lemma_trim_idempotent(s);
    if j >= 0 {
        let pre = t.skip(j + 1);
        let t2 = trim_spec(t.take(j));
        let nip = norm_addr_spec(t2).unwrap();
        assert(out == nip + seq!['/'] + pre);
        assert(is_uint_str(pre));
        lemma_find_from_in_range(t, '/', 0);
        assert(forall|k: int| 0 <= k < j ==> t[k] != '/');
        assert(forall|k: int| 0 <= k < t.take(j).len() ==> #[trigger] t.take(j)[k] != '/');
        lemma_trim_subchars(t.take(j), '/');
        lemma_trim_idempotent(t.take(j));
        lemma_find_char_none(t2, '/');
        lemma_norm_addr_idempotent(t2, nip);
        let lo = nip.len() as int;
        // shape of `out`
        assert(out.len() == lo + 1 + pre.len());
        assert(out[lo] == '/');
        assert(forall|k: int| 0 <= k < lo ==> #[trigger] out[k] == nip[k]);
        assert(forall|k: int| 0 <= k < pre.len() ==> #[trigger] pre[k] == out[lo + 1 + k]);
        assert forall|k: int| 0 <= k < lo implies #[trigger] out[k] != '/' by {
            lemma_find_from_in_range(nip, '/', 0);
        }
        lemma_find_char_at(out, '/', lo);
        // `out` is already trimmed
        let d = uint_digits(pre);
        assert(d.len() > 0 && all_digits(d));
        assert(pre.len() > 0);
        assert(is_digit(pre.last())) by {
            if pre[0] == '+' {
                assert(d.last() == pre.last());
                assert(is_digit(d[d.len() - 1]));
            } else {
                assert(is_digit(pre[pre.len() - 1]));
            }
        }
        assert(out.last() == pre.last());
        assert(!is_space(out.last()));
        assert(out[0] == nip[0]);
        assert(trim_front(out) == out);
        assert(trim_back(out) == out);
        assert(trim_spec(out) == out);
        // re-normalizing `out`
        assert(out.skip(lo + 1) =~= pre);
        assert(out.take(lo) =~= nip);
        assert(find_char(trim_spec(out), '/') == lo);
        assert(norm_addr_spec(trim_spec(out.take(lo))) == Some(nip));
        assert(normalize_spec(out) == Some(nip + seq!['/'] + pre));
    } else {
        lemma_norm_addr_idempotent(t, out);
        assert(find_char(out, '/') < 0);
        assert(normalize_spec(out) == norm_addr_spec(out));
    }
}


/// The four components of a rendered dotted quad read back as numbers
/// that reassemble to the rendered address.
pub(crate) proof fn lemma_ipv4_str_reads_back(n: u32)
    ensures
        ({
            let ps = split_char(ipv4_str(n), '.');
            ps.len() == 4 && (forall|i: int|
                0 <= i < 4 ==> is_uint_str(#[trigger] ps[i]) && uint_val(ps[i]) <= 255) && uint_val(
                ps[0],
            ) * 0x1000000 + uint_val(ps[1]) * 0x10000 + uint_val(ps[2]) * 0x100 + uint_val(ps[3])
                == n as int
        }),
{
    let o0 = n as int / 0x1000000 % 256;
    let o1 = n as int / 0x10000 % 256;
    let o2 = n as int / 0x100 % 256;
    let o3 = n as int % 256;
    let ps = split_char(ipv4_str(n), '.');
    lemma_split_ipv4_str(n);
    assert(ps[0] == dec_str(o0) && ps[1] == dec_str(o1) && ps[2] == dec_str(o2) && ps[3] == dec_str(
        o3,
    ));
    lemma_dec_str_digits(o0);
    lemma_dec_str_digits(o1);
    lemma_dec_str_digits(o2);
    lemma_dec_str_digits(o3);
    lemma_dec_val_dec_str(o0);
    lemma_dec_val_dec_str(o1);
    lemma_dec_val_dec_str(o2);
    lemma_dec_val_dec_str(o3);
    assert forall|i: int| 0 <= i < 4 implies is_uint_str(#[trigger] ps[i]) && uint_val(ps[i])
        <= 255 by {
        let d = ps[i];
        assert(d == dec_str(o0) || d == dec_str(o1) || d == dec_str(o2) || d == dec_str(o3));
        assert(is_digit(d[0]));
        assert(uint_digits(d) == d);
    }
    lemma_octets_reassemble(n);
}

} // verus!

//! Bootstrap-registry precedence matching: match-keys of four
//! address-family shapes, a single specificity measure, and
//! most-specific-wins selection with declaration order as tie-break.

use vstd::prelude::*;

verus! {

/// A resolution failure, one kind per stage.
#[derive(Debug, Clone, PartialEq, Eq)]
pub enum ResolveError {
    InvalidFormat,
    RegistryUnavailable,
    MalformedRegistry,
    NoAuthorityFound,
    CacheError,
}

/// An address block: family, base address, and prefix length.
pub struct CidrBlock {
    pub v6: bool,
    pub base: u128,
    pub prefix: u8,
}

impl CidrBlock {
    /// The prefix length fits the family's bit width.
    pub open spec fn wf(self) -> bool {
        self.prefix <= (if self.v6 {
            128int
        } else {
            32int
        })
    }
}

/// Whether the block covers the address: both masked to the block's
/// prefix length are equal.
pub open spec fn cidr_contains(c: CidrBlock, v6: bool, addr: u128) -> bool {
    c.v6 == v6 && (if c.prefix == 0 {
        true
    } else {
        let sh = (if c.v6 {
            128u32
        } else {
            32u32
        }) - c.prefix as u32;
        addr >> sh == c.base >> sh
    })
}

pub open spec fn lower_char(c: char) -> char {
    if 'A' <= c && c <= 'Z' {
        ((c as u8) + 32) as char
    } else {
        c
    }
}

/// Case-insensitive prefix over ASCII letters.
pub open spec fn ci_prefix(p: Seq<char>, h: Seq<char>) -> bool {
    p.len() <= h.len() && forall|i: int|
        0 <= i < p.len() ==> lower_char(#[trigger] p[i]) == lower_char(h[i])
}

/// One match-key of a registry entry.
pub enum MatchKey {
    Cidr(CidrBlock),
    DomainSuffix(Vec<String>),
    AsnRange(u32, u32),
    HandlePrefix(String),
}

/// A normalized query, one variant per registry family.
pub enum Query {
    Ip(bool, u128),
    Domain(Vec<String>),
    Asn(u32),
    Handle(String),
}

/// One published service: its match-keys and its base URLs in
/// preference order.
pub struct RegistryEntry {
    pub keys: Vec<MatchKey>,
    pub urls: Vec<String>,
}

/// One registry document: entries in declaration order.
pub struct Registry {
    pub entries: Vec<RegistryEntry>,
}

/// Whether a key covers a query of its own family.
pub open spec fn key_matches(k: MatchKey, q: Query) -> bool {
    match k {
        MatchKey::Cidr(c) => q matches Query::Ip(v6, addr) && c.wf() && cidr_contains(c, v6, addr),
        MatchKey::DomainSuffix(suf) => q matches Query::Domain(labels) && suf@.len() > 0
            && suf@.len() <= labels@.len() && (forall|i: int|
            0 <= i < suf@.len() ==> (#[trigger] suf@[i])@ == labels@[labels@.len() - suf@.len()
                + i]@),
        MatchKey::AsnRange(lo, hi) => q matches Query::Asn(a) && lo <= a <= hi,
        MatchKey::HandlePrefix(p) => q matches Query::Handle(h) && ci_prefix(p@, h@),
    }
}

/// How specific a key is: longer prefixes, more labels, narrower
/// ranges and longer handle prefixes win.
pub open spec fn specificity(k: MatchKey) -> int {
    match k {
        MatchKey::Cidr(c) => c.prefix as int,
        MatchKey::DomainSuffix(suf) => suf@.len() as int,
        MatchKey::AsnRange(lo, hi) => -((hi - lo) as int),
        MatchKey::HandlePrefix(p) => p@.len() as int,
    }
}

pub open spec fn entry_matches(e: RegistryEntry, q: Query) -> bool {
    exists|i: int| 0 <= i < e.keys@.len() && key_matches(#[trigger] e.keys@[i], q)
}

fn lower_char_exec(c: char) -> (r: char)
    ensures
        r == lower_char(c),
{
    if c >= 'A' && c <= 'Z' {
        (((c as u8) + 32) as char)
    } else {
        c
    }
}

fn key_matches_exec(k: &MatchKey, q: &Query) -> (b: bool)
    ensures
        b == key_matches(*k, *q),
{
    match k {
        MatchKey::Cidr(c) => {
            match q {
                Query::Ip(v6, addr) => {
                    let bits: u32 = if c.v6 {
                        128
                    } else {
                        32
                    };
                    if c.prefix as u32 > bits {
                        return false;
                    }
                    if c.v6 != *v6 {
                        return false;
                    }
                    if c.prefix == 0 {
                        return true;
                    }
                    let sh = bits - c.prefix as u32;
                    (*addr >> sh) == (c.base >> sh)
                },
                _ => false,
            }
        },
        MatchKey::DomainSuffix(suf) => {
            match q {
                Query::Domain(labels) => {
                    let m = suf.len();
                    let n = labels.len();
                    if m == 0 || m > n {
                        return false;
                    }
                    let off = n - m;
                    let mut ok = true;
                    let mut i: usize = 0;
                    while i < m
                        invariant
                            0 <= i <= m == suf@.len(),
                            m <= n == labels@.len(),
                            off == n - m,
                            ok == (forall|j: int|
                                0 <= j < i ==> (#[trigger] suf@[j])@ == labels@[off + j]@),
                        decreases m - i,
                    {
                        if !suf[i].eq(&labels[off + i]) {
                            ok = false;
                        }
                        i = i + 1;
                    }
                    ok
                },
                _ => false,
            }
        },
        MatchKey::AsnRange(lo, hi) => {
            match q {
                Query::Asn(a) => *lo <= *a && *a <= *hi,
                _ => false,
            }
        },
        MatchKey::HandlePrefix(p) => {
            match q {
                Query::Handle(h) => {
                    let pv = crate::ip::chars_of(p.as_str());
                    let hv = crate::ip::chars_of(h.as_str());
                    let m = pv.len();
                    let n = hv.len();
                    if m > n {
                        return false;
                    }
                    let mut ok = true;
                    let mut i: usize = 0;
                    while i < m
                        invariant
                            0 <= i <= m == pv@.len(),
                            m <= n == hv@.len(),
                            pv@ == p@,
                            hv@ == h@,
                            ok == (forall|j: int|
                                0 <= j < i ==> lower_char(#[trigger] p@[j]) == lower_char(h@[j])),
                        decreases m - i,
                    {
                        if lower_char_exec(pv[i]) != lower_char_exec(hv[i]) {
                            ok = false;
                        }
                        i = i + 1;
                    }
                    ok
                },
                _ => false,
            }
        },
    }
}

fn specificity_exec(k: &MatchKey) -> (s: i128)
    ensures
        s == specificity(*k),
{
    match k {
        MatchKey::Cidr(c) => c.prefix as i128,
        MatchKey::DomainSuffix(suf) => suf.len() as i128,
        MatchKey::AsnRange(lo, hi) => -((*hi as i128) - (*lo as i128)),
        MatchKey::HandlePrefix(p) => p.as_str().unicode_len() as i128,
    }
}

impl Registry {
    /// Resolves a query against this registry: among entries holding
    /// a key that covers the query, the most specific key wins, and
    /// earlier declaration wins ties; with no covering entry the
    /// query fails with `NoAuthorityFound`.
    pub fn resolve(&self, q: &Query) -> (r: Result<&Vec<String>, ResolveError>)
        ensures
            match r {
                Ok(urls) => exists|i: int, ki: int|
                    0 <= i < self.entries@.len() && 0 <= ki < (#[trigger] self.entries@[i]).keys@.len()
                        && key_matches(#[trigger] self.entries@[i].keys@[ki], *q) && urls
                        == &self.entries@[i].urls && (forall|j: int, kj: int|
                        0 <= j < self.entries@.len() && 0 <= kj < (#[trigger] self.entries@[j]).keys@.len()
                            && key_matches(#[trigger] self.entries@[j].keys@[kj], *q)
                            ==> specificity(self.entries@[j].keys@[kj]) <= specificity(
                            self.entries@[i].keys@[ki],
                        ) && (j < i ==> specificity(self.entries@[j].keys@[kj]) < specificity(
                            self.entries@[i].keys@[ki],
                        ))),
                Err(e) => e == ResolveError::NoAuthorityFound && forall|j: int|
                    0 <= j < self.entries@.len() ==> !entry_matches(#[trigger] self.entries@[j], *q),
            },
    {
        let n = self.entries.len();
        let mut best: Option<(usize, usize, i128)> = None;
        let mut j: usize = 0;
        while j < n
            invariant
                0 <= j <= n == self.entries@.len(),
                match best {
                    Some((bi, bki, bs)) => 0 <= bi < j && bki
                        < self.entries@[bi as int].keys@.len() && key_matches(
                        self.entries@[bi as int].keys@[bki as int],
                        *q,
                    ) && bs == specificity(self.entries@[bi as int].keys@[bki as int]) && (forall|
                        j2: int,
                        k2: int,
                    |
                        0 <= j2 < j && 0 <= k2 < (#[trigger] self.entries@[j2]).keys@.len()
                            && key_matches(#[trigger] self.entries@[j2].keys@[k2], *q)
                            ==> specificity(self.entries@[j2].keys@[k2]) <= bs && (j2 < bi
                            ==> specificity(self.entries@[j2].keys@[k2]) < bs)),
                    None => forall|j2: int, k2: int|
                        0 <= j2 < j && 0 <= k2 < (#[trigger] self.entries@[j2]).keys@.len() ==> !key_matches(
                            #[trigger] self.entries@[j2].keys@[k2],
                            *q,
                        ),
                },
            decreases n - j,
        {
            let nk = self.entries[j].keys.len();
            let mut k: usize = 0;
            while k < nk
                invariant
                    0 <= k <= nk == self.entries@[j as int].keys@.len(),
                    0 <= j < n == self.entries@.len(),
                    match best {
                        Some((bi, bki, bs)) => 0 <= bi <= j && bki
                            < self.entries@[bi as int].keys@.len() && key_matches(
                            self.entries@[bi as int].keys@[bki as int],
                            *q,
                        ) && bs == specificity(self.entries@[bi as int].keys@[bki as int]) && (
                        forall|j2: int, k2: int|
                            0 <= j2 < j && 0 <= k2 < (#[trigger] self.entries@[j2]).keys@.len()
                                && key_matches(#[trigger] self.entries@[j2].keys@[k2], *q)
                                ==> specificity(self.entries@[j2].keys@[k2]) <= bs && (j2 < bi
                                ==> specificity(self.entries@[j2].keys@[k2]) < bs)) && (forall|
                            k2: int,
                        |
                            0 <= k2 < k && key_matches(
                                #[trigger] self.entries@[j as int].keys@[k2],
                                *q,
                            ) ==> specificity(self.entries@[j as int].keys@[k2]) <= bs),
                        None => (forall|j2: int, k2: int|
                            0 <= j2 < j && 0 <= k2 < (#[trigger] self.entries@[j2]).keys@.len()
                                ==> !key_matches(#[trigger] self.entries@[j2].keys@[k2], *q))
                            && (forall|k2: int|
                            0 <= k2 < k ==> !key_matches(
                                #[trigger] self.entries@[j as int].keys@[k2],
                                *q,
                            )),
                    },
                decreases nk - k,
            {
                if key_matches_exec(&self.entries[j].keys[k], q) {
                    let s = specificity_exec(&self.entries[j].keys[k]);
                    match best {
                        Some((_, _, bs)) => {
                            if s > bs {
                                best = Some((j, k, s));
                            }
                        },
                        None => {
                            best = Some((j, k, s));
                        },
                    }
                }
                k = k + 1;
            }
            j = j + 1;
        }
        match best {
            Some((bi, bki, _)) => Ok(&self.entries[bi].urls),
            None => {
                proof {
                    assert forall|j2: int|
                        0 <= j2 < self.entries@.len() implies !entry_matches(
                        #[trigger] self.entries@[j2],
                        *q,
                    ) by {
                        assert(forall|k2: int|
                            0 <= k2 < self.entries@[j2].keys@.len() ==> !key_matches(
                                #[trigger] self.entries@[j2].keys@[k2],
                                *q,
                            ));
                    }
                }
                Err(ResolveError::NoAuthorityFound)
            },
        }
    }
}


/// The registry family a raw identifier is routed to.
#[derive(Debug, Clone, Copy, PartialEq, Eq)]
pub enum RegistryKind {
    Ipv4,
    Ipv6,
    Asn,
    ObjectTag,
    Dns,
}

/// An autonomous-system literal: `AS` in either case and digits.
pub open spec fn is_asn_literal(t: Seq<char>) -> bool {
    t.len() > 2 && (t[0] == 'A' || t[0] == 'a') && (t[1] == 'S' || t[1] == 's')
        && crate::ip::all_digits(t.skip(2))
}

/// Where a raw identifier is routed: address-like strings go to the
/// IP families, an `AS` literal to the ASN registry, a string with
/// neither dots nor colons to the object-tag registry, and anything
/// else is treated as a domain name.  Classification never fails.
pub open spec fn classify_spec(s: Seq<char>) -> RegistryKind {
    let t = crate::ip::trim_spec(s);
    if crate::ip::is_ip_like_spec(s) {
        if crate::ip::contains_char(t, ':') {
            RegistryKind::Ipv6
        } else {
            RegistryKind::Ipv4
        }
    } else if is_asn_literal(t) {
        RegistryKind::Asn
    } else if !crate::ip::contains_char(t, '.') && !crate::ip::contains_char(t, ':') {
        RegistryKind::ObjectTag
    } else {
        RegistryKind::Dns
    }
}

/// Decides which registry family answers for a raw identifier.
pub fn classify(input: &str) -> (r: RegistryKind)
    ensures
        r == classify_spec(input@),
{
    let v = crate::ip::chars_of(input);
    let n = v.len();
    proof {
        assert(v@.subrange(0, v@.len() as int) =~= v@);
    }
    let (ts, te) = crate::ip::trim_bounds_range(&v, 0, n);
    let ghost t = crate::ip::trim_spec(input@);
    let has_colon = match crate::ip::find_in_range(&v, ':', ts, te) {
        Some(cp) => {
            proof {
                assert(t[cp - ts] == v@[cp as int]);
                assert(forall|k: int| 0 <= k < cp - ts ==> #[trigger] t[k] == v@[k + ts]);
                crate::ip::lemma_find_char_at(t, ':', cp - ts);
            }
            true
        },
        None => {
            proof {
                assert(forall|k: int| 0 <= k < t.len() ==> #[trigger] t[k] == v@[k + ts]);
                crate::ip::lemma_find_char_none(t, ':');
            }
            false
        },
    };
    if crate::ip::is_ip_like(input) {
        if has_colon {
            return RegistryKind::Ipv6;
        }
        return RegistryKind::Ipv4;
    }
    let len = te - ts;
    if len > 2 {
        let c0 = v[ts];
        let c1 = v[ts + 1];
        if (c0 == 'A' || c0 == 'a') && (c1 == 'S' || c1 == 's') {
            proof {
                assert(t[0] == v@[ts as int]);
                assert(t[1] == v@[ts + 1]);
                assert(t.skip(2) =~= v@.subrange(ts + 2, te as int));
            }
            if crate::ip::all_digits_in(&v, ts + 2, te) {
                return RegistryKind::Asn;
            }
        }
    }
    let has_dot = match crate::ip::find_in_range(&v, '.', ts, te) {
        Some(dp) => {
            proof {
                assert(t[dp - ts] == v@[dp as int]);
                assert(forall|k: int| 0 <= k < dp - ts ==> #[trigger] t[k] == v@[k + ts]);
                crate::ip::lemma_find_char_at(t, '.', dp - ts);
            }
            true
        },
        None => {
            proof {
                assert(forall|k: int| 0 <= k < t.len() ==> #[trigger] t[k] == v@[k + ts]);
                crate::ip::lemma_find_char_none(t, '.');
            }
            false
        },
    };
    if !has_dot && !has_colon {
        RegistryKind::ObjectTag
    } else {
        RegistryKind::Dns
    }
}


/// The numeric value of a dotted-quad address text: four dot-separated
/// unsigned integers, each at most 255, big-endian.
pub open spec fn ipv4_value_spec(s: Seq<char>) -> Option<int> {
    let ps = crate::ip::split_char(s, '.');
    if ps.len() == 4 && (forall|i: int|
        0 <= i < 4 ==> crate::ip::is_uint_str(#[trigger] ps[i]) && crate::ip::uint_val(ps[i])
            <= 255) {
        Some(
            crate::ip::uint_val(ps[0]) * 0x1000000 + crate::ip::uint_val(ps[1]) * 0x10000
                + crate::ip::uint_val(ps[2]) * 0x100 + crate::ip::uint_val(ps[3]),
        )
    } else {
        None
    }
}

/// Reads a dotted-quad address text, as address normalization emits
/// it, into its 32-bit value.
pub fn ipv4_value(s: &str) -> (r: Option<u32>)
    ensures
        match r {
            Some(n) => ipv4_value_spec(s@) == Some(n as int),
            None => ipv4_value_spec(s@) is None,
        },
{
    let v = crate::ip::chars_of(s);
    let n = v.len();
    proof {
        assert(v@.subrange(0, v@.len() as int) =~= v@);
    }
    let ghost ps = crate::ip::split_char(v@, '.');
    let pb = crate::ip::split_bounds(&v, '.', 0, n);
    if pb.len() != 4 {
        return None;
    }
    let mut nums: Vec<u32> = Vec::new();
    let mut k: usize = 0;
    while k < 4
        invariant
            0 <= k <= 4,
            n == v@.len(),
            v@ == s@,
            ps == crate::ip::split_char(v@, '.'),
            ps.len() == 4,
            pb@.len() == 4,
            forall|j: int|
                0 <= j < 4 ==> (#[trigger] pb@[j]).0 <= pb@[j].1 <= n && ps[j] == v@.subrange(
                    pb@[j].0 as int,
                    pb@[j].1 as int,
                ),
            nums@.len() == k,
            forall|j: int|
                0 <= j < k ==> crate::ip::is_uint_str(#[trigger] ps[j]) && crate::ip::uint_val(
                    ps[j],
                ) == nums@[j] && nums@[j] <= 255,
        decreases 4 - k,
    {
        match crate::ip::parse_u32_in(&v, pb[k].0, pb[k].1) {
            Some(x) => {
                if x > 255 {
                    return None;
                }
                nums.push(x);
            },
            None => {
                return None;
            },
        }
        k = k + 1;
    }
    Some(nums[0] * 0x1000000 + nums[1] * 0x10000 + nums[2] * 0x100 + nums[3])
}

/// The digits of an autonomous-system literal: an `AS` tag in either
/// case is skipped.
pub open spec fn asn_digits(t: Seq<char>) -> Seq<char> {
    if t.len() >= 2 && (t[0] == 'A' || t[0] == 'a') && (t[1] == 'S' || t[1] == 's') {
        t.skip(2)
    } else {
        t
    }
}

/// The number named by an autonomous-system literal: an optional `AS`
/// tag and decimal digits, fitting 32 bits.
pub open spec fn asn_value_spec(s: Seq<char>) -> Option<int> {
    let d = asn_digits(crate::ip::trim_spec(s));
    if d.len() > 0 && crate::ip::all_digits(d) && crate::ip::dec_val(d) <= u32::MAX {
        Some(crate::ip::dec_val(d))
    } else {
        None
    }
}

/// Reads an autonomous-system literal into its number.
pub fn asn_value(s: &str) -> (r: Option<u32>)
    ensures
        match r {
            Some(n) => asn_value_spec(s@) == Some(n as int),
            None => asn_value_spec(s@) is None,
        },
{
    let v = crate::ip::chars_of(s);
    let n = v.len();
    proof {
        assert(v@.subrange(0, v@.len() as int) =~= v@);
    }
    let (ts, te) = crate::ip::trim_bounds_range(&v, 0, n);
    let ghost t = crate::ip::trim_spec(s@);
    let ds = if te - ts >= 2 && (v[ts] == 'A' || v[ts] == 'a') && (v[ts + 1] == 'S' || v[ts + 1]
        == 's') {
        proof {
            assert(t[0] == v@[ts as int] && t[1] == v@[ts + 1]);
            assert(asn_digits(t) =~= v@.subrange(ts + 2, te as int));
        }
        ts + 2
    } else {
        proof {
            if t.len() >= 2 {
                assert(t[0] == v@[ts as int] && t[1] == v@[ts + 1]);
            }
            assert(asn_digits(t) =~= v@.subrange(ts as int, te as int));
        }
        ts
    };
    let ghost d = asn_digits(t);
    if ds == te {
        return None;
    }
    if !crate::ip::all_digits_in(&v, ds, te) {
        return None;
    }
    proof {
        assert(crate::ip::is_digit(d[0]));
        assert(crate::ip::uint_digits(d) == d);
    }
    match crate::ip::parse_u32_in(&v, ds, te) {
        Some(x) => Some(x),
        None => None,
    }
}

/// The labels of a domain name: the trimmed text split at dots,
/// case kept as written.
pub fn domain_labels(s: &str) -> (r: Vec<String>)
    ensures
        ({
            let ls = crate::ip::split_char(crate::ip::trim_spec(s@), '.');
            r@.len() == ls.len() && forall|k: int| 0 <= k < ls.len() ==> (#[trigger] r@[k])@ == ls[k]
        }),
{
    let v = crate::ip::chars_of(s);
    let n = v.len();
    proof {
        assert(v@.subrange(0, v@.len() as int) =~= v@);
    }
    let (ts, te) = crate::ip::trim_bounds_range(&v, 0, n);
    let ghost ls = crate::ip::split_char(crate::ip::trim_spec(s@), '.');
    let pb = crate::ip::split_bounds(&v, '.', ts, te);
    let m = pb.len();
    let mut out: Vec<String> = Vec::new();
    let mut k: usize = 0;
    while k < m
        invariant
            0 <= k <= m == pb@.len(),
            n == v@.len(),
            v@ == s@,
            ls == crate::ip::split_char(v@.subrange(ts as int, te as int), '.'),
            ls.len() == m,
            ts <= te <= n,
            forall|j: int|
                0 <= j < m ==> ts <= (#[trigger] pb@[j]).0 <= pb@[j].1 <= te && ls[j]
                    == v@.subrange(pb@[j].0 as int, pb@[j].1 as int),
            out@.len() == k,
            forall|j: int| 0 <= j < k ==> (#[trigger] out@[j])@ == ls[j],
        decreases m - k,
    {
        let piece = s.substring_char(pb[k].0, pb[k].1);
        out.push(piece.to_owned());
        k = k + 1;
    }
    out
}

/// Reading back the rendered dotted quad of an address yields the
/// address: the canonicalizer's output feeds the matcher's query
/// without loss.
pub proof fn lemma_ipv4_value_of_str(n: u32)
    ensures
        ipv4_value_spec(crate::ip::ipv4_str(n)) == Some(n as int),
{
    crate::ip::lemma_ipv4_str_reads_back(n);
}

} // verus!

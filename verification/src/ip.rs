//! The IP addresses that a managed entry maps. An address is held as plain
//! values — four octets for IPv4, eight 16-bit groups for IPv6 — parsed from
//! the usual literal forms and rendered back in the canonical textual form:
//! dotted decimal for IPv4; for IPv6, lowercase hexadecimal groups without
//! leading zeros, the longest (leftmost on ties) run of two or more zero
//! groups compressed to `::`, and the IPv4-mapped range written as
//! `::ffff:a.b.c.d`.

use vstd::prelude::*;

use crate::text::dec_char;
use crate::text::dec_char_of;
use crate::text::dec_digit;
use crate::text::dec_digit_val;
use crate::text::dec_val;
use crate::text::find_char;
use crate::text::find_from;
use crate::text::hex_char;
use crate::text::hex_char_of;
use crate::text::hex_digit;
use crate::text::hex_digit_val;
use crate::text::hex_val;
use crate::text::is_dec_digit;
use crate::text::is_hex_digit;
use crate::text::lemma_find_from;
use crate::text::push_char;
use crate::text::subvec;

verus! {

/// One IP address, version 4 or 6, as plain values.
#[derive(Clone, Copy, Debug, PartialEq, Eq, Structural)]
pub enum IpAddr {
    V4(u8, u8, u8, u8),
    V6(u16, u16, u16, u16, u16, u16, u16, u16),
}

impl IpAddr {
    /// The 16-bit groups of a V6 address, in order.
    pub open spec fn v6_groups(self) -> Seq<u16> {
        match self {
            IpAddr::V6(g0, g1, g2, g3, g4, g5, g6, g7) => seq![g0, g1, g2, g3, g4, g5, g6, g7],
            _ => Seq::empty(),
        }
    }
}

pub open spec fn all_dec(s: Seq<char>) -> bool {
    forall|i: int| 0 <= i < s.len() ==> is_dec_digit(s[i])
}

pub open spec fn all_hex(s: Seq<char>) -> bool {
    forall|i: int| 0 <= i < s.len() ==> is_hex_digit(s[i])
}

/// Value of a decimal digit string.
pub open spec fn seq_dec_val(s: Seq<char>) -> int
    decreases s.len(),
{
    if s.len() == 0 {
        0
    } else {
        seq_dec_val(s.drop_last()) * 10 + dec_val(s.last())
    }
}

/// Value of a hexadecimal digit string.
pub open spec fn seq_hex_val(s: Seq<char>) -> int
    decreases s.len(),
{
    if s.len() == 0 {
        0
    } else {
        seq_hex_val(s.drop_last()) * 16 + hex_val(s.last())
    }
}

pub proof fn lemma_seq_dec_val_bound(s: Seq<char>)
    requires
        all_dec(s),
    ensures
        0 <= seq_dec_val(s),
        s.len() <= 1 ==> seq_dec_val(s) < 10,
        s.len() <= 2 ==> seq_dec_val(s) < 100,
        s.len() <= 3 ==> seq_dec_val(s) < 1000,
    decreases s.len(),
{
    if s.len() > 0 {
        assert(all_dec(s.drop_last())) by {
            assert(forall|i: int|
                0 <= i < s.len() - 1 ==> s.drop_last()[i] == s[i] && is_dec_digit(s[i]));
        }
        lemma_seq_dec_val_bound(s.drop_last());
    }
}

pub proof fn lemma_seq_hex_val_bound(s: Seq<char>)
    requires
        all_hex(s),
    ensures
        0 <= seq_hex_val(s),
        s.len() <= 1 ==> seq_hex_val(s) < 0x10,
        s.len() <= 2 ==> seq_hex_val(s) < 0x100,
        s.len() <= 3 ==> seq_hex_val(s) < 0x1000,
        s.len() <= 4 ==> seq_hex_val(s) < 0x10000,
    decreases s.len(),
{
    if s.len() > 0 {
        assert(all_hex(s.drop_last())) by {
            assert(forall|i: int|
                0 <= i < s.len() - 1 ==> s.drop_last()[i] == s[i] && is_hex_digit(s[i]));
        }
        lemma_seq_hex_val_bound(s.drop_last());
    }
}

/// A decimal octet as it may stand in an IPv4 literal: one to three digits,
/// no leading zero, value at most 255.
pub open spec fn spec_octet(s: Seq<char>) -> Option<u8> {
    if 1 <= s.len() <= 3 && all_dec(s) && !(s.len() > 1 && s[0] == '0') && seq_dec_val(s) <= 255 {
        Some(seq_dec_val(s) as u8)
    } else {
        None
    }
}

/// The four octets of an IPv4 literal `a.b.c.d`, if `s` is one.
pub open spec fn spec_parse_ipv4(s: Seq<char>) -> Option<(u8, u8, u8, u8)> {
    let d1 = find_from(s, '.', 0);
    let d2 = find_from(s, '.', d1 + 1);
    let d3 = find_from(s, '.', d2 + 1);
    let d4 = find_from(s, '.', d3 + 1);
    if d3 < s.len() && d4 == s.len() {
        match (spec_octet(s.subrange(0, d1)), spec_octet(s.subrange(d1 + 1, d2)), spec_octet(
            s.subrange(d2 + 1, d3),
        ), spec_octet(s.subrange(d3 + 1, s.len() as int))) {
            (Some(a), Some(b), Some(c), Some(d)) => Some((a, b, c, d)),
            _ => None,
        }
    } else {
        None
    }
}

/// A group of an IPv6 literal: one to four hexadecimal digits.
pub open spec fn spec_hex_group(s: Seq<char>) -> Option<u16> {
    if 1 <= s.len() <= 4 && all_hex(s) {
        Some(seq_hex_val(s) as u16)
    } else {
        None
    }
}

/// The groups of a colon-separated list of hexadecimal groups covering
/// `s[lo..]`, such as the part of an IPv6 literal before a `::`.
pub open spec fn spec_groups_from(s: Seq<char>, lo: int) -> Option<Seq<u16>>
    decreases s.len() - lo,
        via spec_groups_from_dec
{
    let j = find_from(s, ':', lo);
    match spec_hex_group(s.subrange(lo, j)) {
        None => None,
        Some(g) => {
            if j == s.len() {
                Some(seq![g])
            } else {
                match spec_groups_from(s, j + 1) {
                    None => None,
                    Some(r) => Some(seq![g] + r),
                }
            }
        },
    }
}

#[via_fn]
proof fn spec_groups_from_dec(s: Seq<char>, lo: int) {
    if 0 <= lo <= s.len() {
        lemma_find_from(s, ':', lo);
    }
}

/// Like `spec_groups_from`, but the final part may instead be an embedded
/// IPv4 literal, which stands for two groups.
pub open spec fn spec_groups_v4_from(s: Seq<char>, lo: int) -> Option<Seq<u16>>
    decreases s.len() - lo,
        via spec_groups_v4_from_dec
{
    let j = find_from(s, ':', lo);
    if j == s.len() {
        match spec_hex_group(s.subrange(lo, j)) {
            Some(g) => Some(seq![g]),
            None => match spec_parse_ipv4(s.subrange(lo, j)) {
                Some(q) => Some(
                    seq![(q.0 as int * 256 + q.1 as int) as u16, (q.2 as int * 256 + q.3 as int) as u16],
                ),
                None => None,
            },
        }
    } else {
        match spec_hex_group(s.subrange(lo, j)) {
            None => None,
            Some(g) => match spec_groups_v4_from(s, j + 1) {
                None => None,
                Some(r) => Some(seq![g] + r),
            },
        }
    }
}

#[via_fn]
proof fn spec_groups_v4_from_dec(s: Seq<char>, lo: int) {
    if 0 <= lo <= s.len() {
        lemma_find_from(s, ':', lo);
    }
}

/// Index of the first `::` at or after `from`, or `s.len()`.
pub open spec fn find_dcolon_from(s: Seq<char>, from: int) -> int
    decreases s.len() - from,
{
    if from < 0 || from + 1 >= s.len() {
        s.len() as int
    } else if s[from] == ':' && s[from + 1] == ':' {
        from
    } else {
        find_dcolon_from(s, from + 1)
    }
}

pub proof fn lemma_find_dcolon_from(s: Seq<char>, from: int)
    requires
        0 <= from <= s.len(),
    ensures
        from <= find_dcolon_from(s, from) <= s.len(),
        find_dcolon_from(s, from) < s.len() ==> find_dcolon_from(s, from) + 1 < s.len()
            && s[find_dcolon_from(s, from)] == ':' && s[find_dcolon_from(s, from) + 1] == ':',
        forall|j: int|
            from <= j < find_dcolon_from(s, from) && j + 1 < s.len() ==> !(#[trigger] s[j] == ':'
                && s[j + 1] == ':'),
    decreases s.len() - from,
{
    if from + 1 < s.len() && !(s[from] == ':' && s[from + 1] == ':') {
        lemma_find_dcolon_from(s, from + 1);
    }
}

pub open spec fn zero_groups(n: int) -> Seq<u16> {
    Seq::new(n as nat, |i: int| 0u16)
}

/// The eight groups of an IPv6 literal, if `s` is one: either eight
/// colon-separated groups, or two group lists joined by one `::` that stands
/// for the missing zero groups (at least one), either list possibly ending in
/// an embedded IPv4 literal.
pub open spec fn spec_parse_ipv6(s: Seq<char>) -> Option<Seq<u16>> {
    let p = find_dcolon_from(s, 0);
    if p == s.len() {
        if s.len() == 0 {
            None
        } else {
            match spec_groups_v4_from(s, 0) {
                Some(gs) => if gs.len() == 8 {
                    Some(gs)
                } else {
                    None
                },
                None => None,
            }
        }
    } else {
        let left = s.subrange(0, p);
        let right = s.subrange(p + 2, s.len() as int);
        let lg = if left.len() == 0 {
            Some(Seq::<u16>::empty())
        } else {
            spec_groups_from(left, 0)
        };
        let rg = if right.len() == 0 {
            Some(Seq::<u16>::empty())
        } else {
            spec_groups_v4_from(right, 0)
        };
        match (lg, rg) {
            (Some(l), Some(r)) => if l.len() + r.len() <= 7 {
                Some(l + zero_groups(8 - l.len() - r.len()) + r)
            } else {
                None
            },
            _ => None,
        }
    }
}

/// The address an IP literal denotes: the IPv4 form if `s` is one, else the
/// IPv6 form if `s` is one.
pub open spec fn spec_parse_ip(s: Seq<char>) -> Option<IpAddr> {
    match spec_parse_ipv4(s) {
        Some(q) => Some(IpAddr::V4(q.0, q.1, q.2, q.3)),
        None => match spec_parse_ipv6(s) {
            Some(gs) => Some(IpAddr::V6(gs[0], gs[1], gs[2], gs[3], gs[4], gs[5], gs[6], gs[7])),
            None => None,
        },
    }
}

fn parse_octet(v: &Vec<char>, lo: usize, hi: usize) -> (r: Option<u8>)
    requires
        lo <= hi <= v@.len(),
    ensures
        r == spec_octet(v@.subrange(lo as int, hi as int)),
{
    let ghost s = v@.subrange(lo as int, hi as int);
    let len = hi - lo;
    if len < 1 || len > 3 {
        return None;
    }
    if len > 1 && v[lo] == '0' {
        assert(s[0] == '0');
        return None;
    }
    let mut val: u32 = 0;
    let mut i: usize = lo;
    while i < hi
        invariant
            lo <= i <= hi <= v@.len(),
            1 <= hi - lo <= 3,
            s == v@.subrange(lo as int, hi as int),
            all_dec(s.subrange(0, i - lo)),
            val == seq_dec_val(s.subrange(0, i - lo)),
        decreases hi - i,
    {
        let c = v[i];
        assert(s[i - lo] == c);
        if !dec_digit(c) {
            assert(!all_dec(s));
            return None;
        }
        proof {
            lemma_seq_dec_val_bound(s.subrange(0, i - lo));
            assert(s.subrange(0, i - lo + 1).drop_last() =~= s.subrange(0, i - lo));
            assert(s.subrange(0, i - lo + 1).last() == s[i - lo]);
        }
        val = val * 10 + dec_digit_val(c);
        i = i + 1;
    }
    proof {
        assert(s.subrange(0, hi - lo) =~= s);
    }
    if val > 255 {
        None
    } else {
        Some(val as u8)
    }
}

fn parse_hex_group(v: &Vec<char>, lo: usize, hi: usize) -> (r: Option<u16>)
    requires
        lo <= hi <= v@.len(),
    ensures
        r == spec_hex_group(v@.subrange(lo as int, hi as int)),
{
    let ghost s = v@.subrange(lo as int, hi as int);
    let len = hi - lo;
    if len < 1 || len > 4 {
        return None;
    }
    let mut val: u32 = 0;
    let mut i: usize = lo;
    while i < hi
        invariant
            lo <= i <= hi <= v@.len(),
            1 <= hi - lo <= 4,
            s == v@.subrange(lo as int, hi as int),
            all_hex(s.subrange(0, i - lo)),
            val == seq_hex_val(s.subrange(0, i - lo)),
        decreases hi - i,
    {
        let c = v[i];
        assert(s[i - lo] == c);
        if !hex_digit(c) {
            assert(!all_hex(s));
            return None;
        }
        proof {
            lemma_seq_hex_val_bound(s.subrange(0, i - lo));
            assert(s.subrange(0, i - lo + 1).drop_last() =~= s.subrange(0, i - lo));
            assert(s.subrange(0, i - lo + 1).last() == s[i - lo]);
        }
        val = val * 16 + hex_digit_val(c);
        i = i + 1;
    }
    proof {
        assert(s.subrange(0, hi - lo) =~= s);
        lemma_seq_hex_val_bound(s);
    }
    Some(val as u16)
}

fn parse_ipv4(v: &Vec<char>) -> (r: Option<(u8, u8, u8, u8)>)
    ensures
        r == spec_parse_ipv4(v@),
{
    let n = v.len();
    proof {
        lemma_find_from(v@, '.', 0);
    }
    let d1 = find_char(v, '.', 0);
    if d1 == n {
        return None;
    }
    proof {
        lemma_find_from(v@, '.', d1 as int + 1);
    }
    let d2 = find_char(v, '.', d1 + 1);
    if d2 == n {
        return None;
    }
    proof {
        lemma_find_from(v@, '.', d2 as int + 1);
    }
    let d3 = find_char(v, '.', d2 + 1);
    if d3 == n {
        return None;
    }
    proof {
        lemma_find_from(v@, '.', d3 as int + 1);
    }
    let d4 = find_char(v, '.', d3 + 1);
    if d4 != n {
        return None;
    }
    let o1 = parse_octet(v, 0, d1);
    let o2 = parse_octet(v, d1 + 1, d2);
    let o3 = parse_octet(v, d2 + 1, d3);
    let o4 = parse_octet(v, d3 + 1, n);
    match (o1, o2, o3, o4) {
        (Some(a), Some(b), Some(c), Some(d)) => Some((a, b, c, d)),
        _ => None,
    }
}

fn parse_groups(v: &Vec<char>, lo: usize) -> (r: Option<Vec<u16>>)
    requires
        lo <= v@.len(),
    ensures
        match r {
            Some(g) => spec_groups_from(v@, lo as int) == Some(g@),
            None => spec_groups_from(v@, lo as int) is None,
        },
    decreases v@.len() - lo,
{
    proof {
        lemma_find_from(v@, ':', lo as int);
    }
    let j = find_char(v, ':', lo);
    match parse_hex_group(v, lo, j) {
        None => None,
        Some(g) => {
            if j == v.len() {
                let mut out: Vec<u16> = Vec::new();
                out.push(g);
                proof {
                    assert(out@ =~= seq![g]);
                }
                Some(out)
            } else {
                match parse_groups(v, j + 1) {
                    None => None,
                    Some(rest) => {
                        let ghost rest0 = rest@;
                        let mut rest = rest;
                        rest.insert(0, g);
                        proof {
                            assert(rest@ =~= seq![g] + rest0);
                        }
                        Some(rest)
                    },
                }
            }
        },
    }
}

fn parse_groups_v4(v: &Vec<char>, lo: usize) -> (r: Option<Vec<u16>>)
    requires
        lo <= v@.len(),
    ensures
        match r {
            Some(g) => spec_groups_v4_from(v@, lo as int) == Some(g@),
            None => spec_groups_v4_from(v@, lo as int) is None,
        },
    decreases v@.len() - lo,
{
    proof {
        lemma_find_from(v@, ':', lo as int);
    }
    let j = find_char(v, ':', lo);
    if j == v.len() {
        match parse_hex_group(v, lo, j) {
            Some(g) => {
                let mut out: Vec<u16> = Vec::new();
                out.push(g);
                proof {
                    assert(out@ =~= seq![g]);
                }
                Some(out)
            },
            None => {
                let part = subvec(v, lo, j);
                match parse_ipv4(&part) {
                    Some(q) => {
                        let (a, b, c, d) = q;
                        let g1: u16 = a as u16 * 256 + b as u16;
                        let g2: u16 = c as u16 * 256 + d as u16;
                        let mut out: Vec<u16> = Vec::new();
                        out.push(g1);
                        out.push(g2);
                        proof {
                            assert(out@ =~= seq![g1, g2]);
                        }
                        Some(out)
                    },
                    None => None,
                }
            },
        }
    } else {
        match parse_hex_group(v, lo, j) {
            None => None,
            Some(g) => {
                match parse_groups_v4(v, j + 1) {
                    None => None,
                    Some(rest) => {
                        let ghost rest0 = rest@;
                        let mut rest = rest;
                        rest.insert(0, g);
                        proof {
                            assert(rest@ =~= seq![g] + rest0);
                        }
                        Some(rest)
                    },
                }
            },
        }
    }
}

fn find_dcolon(v: &Vec<char>) -> (r: usize)
    ensures
        r == find_dcolon_from(v@, 0),
{
    let n = v.len();
    if n == 0 {
        return 0;
    }
    let mut i: usize = 0;
    while i < n - 1
        invariant
            i <= n,
            n == v@.len(),
            n > 0,
            find_dcolon_from(v@, 0) == find_dcolon_from(v@, i as int),
        decreases n - i,
    {
        if v[i] == ':' && v[i + 1] == ':' {
            return i;
        }
        i = i + 1;
    }
    n
}

fn parse_ipv6(v: &Vec<char>) -> (r: Option<Vec<u16>>)
    ensures
        match r {
            Some(g) => spec_parse_ipv6(v@) == Some(g@) && g@.len() == 8,
            None => spec_parse_ipv6(v@) is None,
        },
{
    let n = v.len();
    proof {
        lemma_find_dcolon_from(v@, 0);
    }
    let p = find_dcolon(v);
    if p == n {
        if n == 0 {
            return None;
        }
        match parse_groups_v4(v, 0) {
            Some(gs) => {
                if gs.len() == 8 {
                    Some(gs)
                } else {
                    None
                }
            },
            None => None,
        }
    } else {
        let left = subvec(v, 0, p);
        let right = subvec(v, p + 2, n);
        let lg: Option<Vec<u16>> = if left.len() == 0 {
            Some(Vec::new())
        } else {
            parse_groups(&left, 0)
        };
        let rg: Option<Vec<u16>> = if right.len() == 0 {
            Some(Vec::new())
        } else {
            parse_groups_v4(&right, 0)
        };
        match (lg, rg) {
            (Some(l), Some(r)) => {
                if l.len() <= 7 && r.len() <= 7 - l.len() {
                    let fill = 8 - l.len() - r.len();
                    let mut out: Vec<u16> = Vec::new();
                    let mut i: usize = 0;
                    while i < l.len()
                        invariant
                            i <= l@.len(),
                            out@ == l@.subrange(0, i as int),
                        decreases l@.len() - i,
                    {
                        out.push(l[i]);
                        proof {
                            assert(l@.subrange(0, i as int + 1) =~= l@.subrange(
                                0,
                                i as int,
                            ).push(l@[i as int]));
                        }
                        i = i + 1;
                    }
                    proof {
                        assert(l@.subrange(0, l@.len() as int) =~= l@);
                    }
                    let mut k: usize = 0;
                    while k < fill
                        invariant
                            k <= fill,
                            out@ == l@ + zero_groups(k as int),
                        decreases fill - k,
                    {
                        out.push(0);
                        proof {
                            assert(l@ + zero_groups(k as int + 1) =~= (l@ + zero_groups(
                                k as int,
                            )).push(0u16));
                        }
                        k = k + 1;
                    }
                    let mut m: usize = 0;
                    while m < r.len()
                        invariant
                            m <= r@.len(),
                            out@ == l@ + zero_groups(fill as int) + r@.subrange(0, m as int),
                        decreases r@.len() - m,
                    {
                        out.push(r[m]);
                        proof {
                            assert(l@ + zero_groups(fill as int) + r@.subrange(0, m as int + 1)
                                =~= (l@ + zero_groups(fill as int) + r@.subrange(0, m as int)).push(
                                r@[m as int],
                            ));
                        }
                        m = m + 1;
                    }
                    proof {
                        assert(r@.subrange(0, r@.len() as int) =~= r@);
                    }
                    Some(out)
                } else {
                    None
                }
            },
            _ => None,
        }
    }
}

impl IpAddr {
    /// Parses an IP literal, IPv4 form first, IPv6 form second.
    pub fn parse_chars(v: &Vec<char>) -> (r: Option<IpAddr>)
        ensures
            r == spec_parse_ip(v@),
    {
        match parse_ipv4(v) {
            Some(q) => {
                let (a, b, c, d) = q;
                Some(IpAddr::V4(a, b, c, d))
            },
            None => match parse_ipv6(v) {
                Some(gs) => Some(
                    IpAddr::V6(gs[0], gs[1], gs[2], gs[3], gs[4], gs[5], gs[6], gs[7]),
                ),
                None => None,
            },
        }
    }

    /// Parses an IP literal from a string.
    pub fn from_str(s: &str) -> (r: Option<IpAddr>)
        ensures
            r == spec_parse_ip(s@),
    {
        let v = crate::text::chars_of(s);
        IpAddr::parse_chars(&v)
    }
}

/// Decimal rendering of an octet, without leading zeros.
pub open spec fn dec_u8_chars(n: int) -> Seq<char> {
    if n < 10 {
        seq![dec_char(n)]
    } else if n < 100 {
        seq![dec_char(n / 10), dec_char(n % 10)]
    } else {
        seq![dec_char(n / 100), dec_char((n / 10) % 10), dec_char(n % 10)]
    }
}

/// Lowercase hexadecimal rendering of a group, without leading zeros.
pub open spec fn hex_u16_chars(n: int) -> Seq<char> {
    if n < 0x10 {
        seq![hex_char(n)]
    } else if n < 0x100 {
        seq![hex_char(n / 0x10), hex_char(n % 0x10)]
    } else if n < 0x1000 {
        seq![hex_char(n / 0x100), hex_char((n / 0x10) % 0x10), hex_char(n % 0x10)]
    } else {
        seq![
            hex_char(n / 0x1000),
            hex_char((n / 0x100) % 0x10),
            hex_char((n / 0x10) % 0x10),
            hex_char(n % 0x10),
        ]
    }
}

/// Canonical text of an IPv4 address.
pub open spec fn render_v4(a: int, b: int, c: int, d: int) -> Seq<char> {
    dec_u8_chars(a) + seq!['.'] + dec_u8_chars(b) + seq!['.'] + dec_u8_chars(c) + seq!['.']
        + dec_u8_chars(d)
}

/// One step of the scan for the longest run of zero groups. `cs`/`cl` are the
/// start and length of the run under the cursor, `ls`/`ll` of the longest so
/// far; on ties the earlier run is kept.
pub open spec fn zero_run(gs: Seq<u16>, i: int, cs: int, cl: int, ls: int, ll: int) -> (int, int)
    decreases gs.len() - i,
{
    if i < 0 || i >= gs.len() {
        (ls, ll)
    } else if gs[i] == 0 {
        let ncs = if cl == 0 {
            i
        } else {
            cs
        };
        let ncl = cl + 1;
        if ncl > ll {
            zero_run(gs, i + 1, ncs, ncl, ncs, ncl)
        } else {
            zero_run(gs, i + 1, ncs, ncl, ls, ll)
        }
    } else {
        zero_run(gs, i + 1, 0, 0, ls, ll)
    }
}

/// Start and length of the longest (leftmost on ties) run of zero groups.
pub open spec fn spec_zero_run(gs: Seq<u16>) -> (int, int) {
    zero_run(gs, 0, 0, 0, 0, 0)
}

pub proof fn lemma_zero_run_bounds(gs: Seq<u16>, i: int, cs: int, cl: int, ls: int, ll: int)
    requires
        0 <= i <= gs.len(),
        0 <= cs,
        0 <= cl <= i,
        0 <= ls,
        0 <= ll <= i,
        cl == 0 || cs + cl == i,
        ll == 0 || ls + ll <= i,
    ensures
        ({
            let r = zero_run(gs, i, cs, cl, ls, ll);
            0 <= r.0 && ll <= r.1 <= gs.len() && (r.1 == 0 || r.0 + r.1 <= gs.len())
        }),
    decreases gs.len() - i,
{
    if i < gs.len() {
        if gs[i] == 0 {
            let ncs = if cl == 0 {
                i
            } else {
                cs
            };
            let ncl = cl + 1;
            if ncl > ll {
                lemma_zero_run_bounds(gs, i + 1, ncs, ncl, ncs, ncl);
            } else {
                lemma_zero_run_bounds(gs, i + 1, ncs, ncl, ls, ll);
            }
        } else {
            lemma_zero_run_bounds(gs, i + 1, 0, 0, ls, ll);
        }
    }
}

/// Hexadecimal groups joined by `:`.
pub open spec fn join_hex_colon(gs: Seq<u16>) -> Seq<char>
    decreases gs.len(),
{
    if gs.len() == 0 {
        Seq::empty()
    } else if gs.len() == 1 {
        hex_u16_chars(gs[0] as int)
    } else {
        join_hex_colon(gs.drop_last()) + seq![':'] + hex_u16_chars(gs.last() as int)
    }
}

/// The IPv4-mapped range `::ffff:0:0/96`, which is rendered in mixed form.
pub open spec fn is_v4_mapped(gs: Seq<u16>) -> bool {
    gs.len() == 8 && gs[0] == 0 && gs[1] == 0 && gs[2] == 0 && gs[3] == 0 && gs[4] == 0 && gs[5]
        == 0xffff
}

/// Canonical text of an IPv6 address given as its eight groups.
pub open spec fn render_v6(gs: Seq<u16>) -> Seq<char> {
    if is_v4_mapped(gs) {
        seq![':', ':', 'f', 'f', 'f', 'f', ':'] + render_v4(
            gs[6] as int / 256,
            gs[6] as int % 256,
            gs[7] as int / 256,
            gs[7] as int % 256,
        )
    } else {
        let r = spec_zero_run(gs);
        if r.1 > 1 {
            join_hex_colon(gs.subrange(0, r.0)) + seq![':', ':'] + join_hex_colon(
                gs.subrange(r.0 + r.1, gs.len() as int),
            )
        } else {
            join_hex_colon(gs)
        }
    }
}

/// Canonical text of an address.
pub open spec fn render_ip(ip: IpAddr) -> Seq<char> {
    match ip {
        IpAddr::V4(a, b, c, d) => render_v4(a as int, b as int, c as int, d as int),
        IpAddr::V6(g0, g1, g2, g3, g4, g5, g6, g7) => render_v6(ip.v6_groups()),
    }
}

pub(crate) fn push_dec_u8(out: &mut String, n: u8)
    ensures
        final (out)@ == old(out)@ + dec_u8_chars(n as int),
{
    if n < 10 {
        push_char(out, dec_char_of(n as u32));
        proof {
            assert(out@ =~= old(out)@ + dec_u8_chars(n as int));
        }
    } else if n < 100 {
        push_char(out, dec_char_of((n / 10) as u32));
        push_char(out, dec_char_of((n % 10) as u32));
        proof {
            assert(out@ =~= old(out)@ + dec_u8_chars(n as int));
        }
    } else {
        push_char(out, dec_char_of((n / 100) as u32));
        push_char(out, dec_char_of(((n / 10) % 10) as u32));
        push_char(out, dec_char_of((n % 10) as u32));
        proof {
            assert(out@ =~= old(out)@ + dec_u8_chars(n as int));
        }
    }
}

pub(crate) fn push_hex_u16(out: &mut String, n: u16)
    ensures
        final (out)@ == old(out)@ + hex_u16_chars(n as int),
{
    if n < 0x10 {
        push_char(out, hex_char_of(n as u32));
        proof {
            assert(out@ =~= old(out)@ + hex_u16_chars(n as int));
        }
    } else if n < 0x100 {
        push_char(out, hex_char_of((n / 0x10) as u32));
        push_char(out, hex_char_of((n % 0x10) as u32));
        proof {
            assert(out@ =~= old(out)@ + hex_u16_chars(n as int));
        }
    } else if n < 0x1000 {
        push_char(out, hex_char_of((n / 0x100) as u32));
        push_char(out, hex_char_of(((n / 0x10) % 0x10) as u32));
        push_char(out, hex_char_of((n % 0x10) as u32));
        proof {
            assert(out@ =~= old(out)@ + hex_u16_chars(n as int));
        }
    } else {
        push_char(out, hex_char_of((n / 0x1000) as u32));
        push_char(out, hex_char_of(((n / 0x100) % 0x10) as u32));
        push_char(out, hex_char_of(((n / 0x10) % 0x10) as u32));
        push_char(out, hex_char_of((n % 0x10) as u32));
        proof {
            assert(out@ =~= old(out)@ + hex_u16_chars(n as int));
        }
    }
}

pub(crate) fn push_v4(out: &mut String, a: u8, b: u8, c: u8, d: u8)
    ensures
        final (out)@ == old(out)@ + render_v4(a as int, b as int, c as int, d as int),
{
    push_dec_u8(out, a);
    push_char(out, '.');
    push_dec_u8(out, b);
    push_char(out, '.');
    push_dec_u8(out, c);
    push_char(out, '.');
    push_dec_u8(out, d);
    proof {
        assert(out@ =~= old(out)@ + render_v4(a as int, b as int, c as int, d as int));
    }
}

fn find_zero_run(gs: &Vec<u16>) -> (r: (usize, usize))
    ensures
        r.0 as int == spec_zero_run(gs@).0,
        r.1 as int == spec_zero_run(gs@).1,
{
    let n = gs.len();
    let mut cs: usize = 0;
    let mut cl: usize = 0;
    let mut ls: usize = 0;
    let mut ll: usize = 0;
    let mut i: usize = 0;
    while i < n
        invariant
            i <= n,
            n == gs@.len(),
            cl <= i,
            ll <= i,
            cl == 0 || cs + cl == i,
            spec_zero_run(gs@) == zero_run(gs@, i as int, cs as int, cl as int, ls as int, ll as int),
        decreases n - i,
    {
        if gs[i] == 0 {
            if cl == 0 {
                cs = i;
            }
            cl = cl + 1;
            if cl > ll {
                ls = cs;
                ll = cl;
            }
        } else {
            cs = 0;
            cl = 0;
        }
        i = i + 1;
    }
    (ls, ll)
}

fn push_join(out: &mut String, gs: &Vec<u16>, lo: usize, hi: usize)
    requires
        lo <= hi <= gs@.len(),
    ensures
        final (out)@ == old(out)@ + join_hex_colon(gs@.subrange(lo as int, hi as int)),
{
    let ghost base = out@;
    let mut i: usize = lo;
    while i < hi
        invariant
            lo <= i <= hi <= gs@.len(),
            out@ == base + join_hex_colon(gs@.subrange(lo as int, i as int)),
        decreases hi - i,
    {
        if i > lo {
            push_char(out, ':');
        }
        push_hex_u16(out, gs[i]);
        proof {
            let sub1 = gs@.subrange(lo as int, i as int + 1);
            let sub0 = gs@.subrange(lo as int, i as int);
            if i == lo {
                assert(sub1 =~= seq![gs@[i as int]]);
                assert(sub0 =~= Seq::<u16>::empty());
                assert(out@ =~= base + join_hex_colon(sub1));
            } else {
                assert(sub1.drop_last() =~= sub0);
                assert(sub1.last() == gs@[i as int]);
                assert(out@ =~= base + join_hex_colon(sub1));
            }
        }
        i = i + 1;
    }
    proof {
        if lo == hi {
            assert(gs@.subrange(lo as int, hi as int) =~= Seq::<u16>::empty());
            assert(out@ =~= base + join_hex_colon(gs@.subrange(lo as int, hi as int)));
        }
    }
}

pub(crate) fn push_v6(out: &mut String, gs: &Vec<u16>)
    requires
        gs@.len() == 8,
    ensures
        final (out)@ == old(out)@ + render_v6(gs@),
{
    if gs[0] == 0 && gs[1] == 0 && gs[2] == 0 && gs[3] == 0 && gs[4] == 0 && gs[5] == 0xffff {
        push_char(out, ':');
        push_char(out, ':');
        push_char(out, 'f');
        push_char(out, 'f');
        push_char(out, 'f');
        push_char(out, 'f');
        push_char(out, ':');
        push_v4(out, (gs[6] / 256) as u8, (gs[6] % 256) as u8, (gs[7] / 256) as u8, (
        gs[7] % 256) as u8);
        proof {
            assert(out@ =~= old(out)@ + render_v6(gs@));
        }
    } else {
        proof {
            lemma_zero_run_bounds(gs@, 0, 0, 0, 0, 0);
        }
        let run = find_zero_run(gs);
        let ls = run.0;
        let ll = run.1;
        if ll > 1 {
            push_join(out, gs, 0, ls);
            push_char(out, ':');
            push_char(out, ':');
            push_join(out, gs, ls + ll, 8);
            proof {
                assert(out@ =~= old(out)@ + render_v6(gs@));
            }
        } else {
            push_join(out, gs, 0, 8);
            proof {
                assert(gs@.subrange(0, 8) =~= gs@);
                assert(out@ =~= old(out)@ + render_v6(gs@));
            }
        }
    }
}

impl IpAddr {
    /// The canonical text of the address.
    pub fn render(&self) -> (r: String)
        ensures
            r@ == render_ip(*self),
    {
        let mut out = String::new();
        match *self {
            IpAddr::V4(a, b, c, d) => {
                push_v4(&mut out, a, b, c, d);
                proof {
                    assert(out@ =~= render_ip(*self));
                }
            },
            IpAddr::V6(g0, g1, g2, g3, g4, g5, g6, g7) => {
                let gs: Vec<u16> = vec![g0, g1, g2, g3, g4, g5, g6, g7];
                proof {
                    assert(gs@ =~= self.v6_groups());
                }
                push_v6(&mut out, &gs);
                proof {
                    assert(out@ =~= render_ip(*self));
                }
            },
        }
        out
    }
}

} // verus!

//! IPv4 targets: a host address, or a network given by its base address and
//! prefix length.
use vstd::prelude::*;
use crate::prefix::{same_bytes, network_of, subnet_mask, target_of, top_bits, valid_target};
use crate::text::{decimal_text, digits_value, is_decimal_digit, lemma_decimal_text, push_decimal_u8, split_target, target_text_parts};
use vstd::string::*;

verus! {

proof fn lemma_mask_bytes(p: u32)
    by (bit_vector)
    requires
        p < 32,
    ensures
        ((!(0xffffffffu32 >> p)) >> 24u32) as u8 == top_bits(if p >= 8 { 8u8 } else { p as u8 }),
        ((!(0xffffffffu32 >> p)) >> 16u32) as u8 == top_bits(if p >= 16 { 8u8 } else if p <= 8 { 0u8 } else { (p - 8) as u8 }),
        ((!(0xffffffffu32 >> p)) >> 8u32) as u8 == top_bits(if p >= 24 { 8u8 } else if p <= 16 { 0u8 } else { (p - 16) as u8 }),
        (!(0xffffffffu32 >> p)) as u8 == top_bits(if p <= 24 { 0u8 } else { (p - 24) as u8 }),
{
}

/// The subnet mask of a prefix of `prefix_len` bits, most significant byte
/// first; a prefix longer than 32 bits keeps every bit.
fn ipv4_subnet_mask(prefix_len: u8) -> (r: [u8; 4])
    ensures
        r@ == subnet_mask(prefix_len as int, 4),
{
    let shifted: u32 = if prefix_len >= 32 { 0 } else { 0xffffffffu32 >> prefix_len };
    let mask: u32 = !shifted;
    let r = [(mask >> 24u32) as u8, (mask >> 16u32) as u8, (mask >> 8u32) as u8, mask as u8];
    proof {
        if prefix_len < 32 {
            lemma_mask_bytes(prefix_len as u32);
        } else {
            assert(!0u32 == 0xffffffffu32) by (bit_vector);
            assert((0xffffffffu32 >> 24u32) as u8 == 0xffu8) by (bit_vector);
            assert((0xffffffffu32 >> 16u32) as u8 == 0xffu8) by (bit_vector);
            assert((0xffffffffu32 >> 8u32) as u8 == 0xffu8) by (bit_vector);
            assert(0xffffffffu32 as u8 == 0xffu8) by (bit_vector);
        }
    }
    assert(r@ =~= subnet_mask(prefix_len as int, 4));
    r
}

/// The first address of the network of `ip` under `prefix_len`.
fn ipv4_network_address(ip: [u8; 4], prefix_len: u8) -> (r: [u8; 4])
    ensures
        r@ == network_of(ip@, prefix_len as int),
{
    let mask = ipv4_subnet_mask(prefix_len);
    let mut addr = [0u8; 4];
    let mut i: usize = 0;
    while i < 4
        invariant
            mask@ == subnet_mask(prefix_len as int, 4),
            i <= 4,
            forall|k: int| 0 <= k < i ==> addr@[k] == #[trigger] network_of(ip@, prefix_len as int)[k],
        decreases 4 - i,
    {
        addr[i] = ip[i] & mask[i];
        i = i + 1;
    }
    assert(addr@ =~= network_of(ip@, prefix_len as int));
    addr
}

/// The dotted-quad text of an address: its four bytes in decimal without
/// leading zeros, separated by dots.
pub open spec fn ipv4_text(a: Seq<u8>) -> Seq<char> {
    decimal_text(a[0] as nat) + seq!['.'] + decimal_text(a[1] as nat) + seq!['.']
        + decimal_text(a[2] as nat) + seq!['.'] + decimal_text(a[3] as nat)
}

/// The address whose dotted-quad text `t` is, where it is one.
pub open spec fn ipv4_from_text(t: Seq<char>) -> Option<Seq<u8>> {
    if exists|a: [u8; 4]| t == ipv4_text(a@) {
        Some((choose|a: [u8; 4]| t == ipv4_text(a@))@)
    } else {
        None
    }
}

/// The decimal text of `v` stands in `t` at `start`, and no digit follows it.
pub open spec fn is_octet_at(t: Seq<char>, start: int, v: u8) -> bool {
    let e = start + decimal_text(v as nat).len();
    &&& 0 <= start
    &&& e <= t.len()
    &&& t.subrange(start, e) == decimal_text(v as nat)
    &&& (e == t.len() || !is_decimal_digit(t[e]))
}

proof fn lemma_octet_unique(t: Seq<char>, start: int, v: u8, w: u8)
    requires
        is_octet_at(t, start, v),
        is_octet_at(t, start, w),
    ensures
        v == w,
{
    lemma_decimal_text(v as nat);
    lemma_decimal_text(w as nat);
    let dv = decimal_text(v as nat);
    let dw = decimal_text(w as nat);
    let ev = start + dv.len();
    let ew = start + dw.len();
    if ev < ew {
        assert(t[ev] == dw[ev - start]);
    } else if ew < ev {
        assert(t[ew] == dv[ew - start]);
    }
    assert(dv == dw);
}

proof fn lemma_ipv4_layout(a: Seq<u8>)
    requires
        a.len() == 4,
    ensures
        ({
            let t = ipv4_text(a);
            let s1 = decimal_text(a[0] as nat).len() as int + 1;
            let s2 = s1 + decimal_text(a[1] as nat).len() as int + 1;
            let s3 = s2 + decimal_text(a[2] as nat).len() as int + 1;
            &&& is_octet_at(t, 0, a[0])
            &&& t[s1 - 1] == '.'
            &&& is_octet_at(t, s1, a[1])
            &&& t[s2 - 1] == '.'
            &&& is_octet_at(t, s2, a[2])
            &&& t[s3 - 1] == '.'
            &&& is_octet_at(t, s3, a[3])
            &&& t.len() == s3 + decimal_text(a[3] as nat).len()
        }),
{
    let t = ipv4_text(a);
    let d0 = decimal_text(a[0] as nat);
    let d1 = decimal_text(a[1] as nat);
    let d2 = decimal_text(a[2] as nat);
    let d3 = decimal_text(a[3] as nat);
    lemma_decimal_text(a[0] as nat);
    lemma_decimal_text(a[1] as nat);
    lemma_decimal_text(a[2] as nat);
    lemma_decimal_text(a[3] as nat);
    let s1 = d0.len() as int + 1;
    let s2 = s1 + d1.len() as int + 1;
    let s3 = s2 + d2.len() as int + 1;
    assert(t.subrange(0, d0.len() as int) =~= d0);
    assert(t.subrange(s1, s1 + d1.len() as int) =~= d1);
    assert(t.subrange(s2, s2 + d2.len() as int) =~= d2);
    assert(t.subrange(s3, s3 + d3.len() as int) =~= d3);
    assert(t[s1 - 1] == '.');
    assert(t[s2 - 1] == '.');
    assert(t[s3 - 1] == '.');
}

fn char_is_digit(c: char) -> (r: bool)
    ensures
        r == is_decimal_digit(c),
{
    '0' <= c && c <= '9'
}

/// Reads the decimal byte that starts at `start`: the whole run of digits
/// there, with no leading zero and a value of at most 255.
fn read_octet(t: &str, n: usize, start: usize) -> (r: Option<(u8, usize)>)
    requires
        n == t@.len(),
        start <= n,
    ensures
        r matches Some((v, e)) ==> is_octet_at(t@, start as int, v)
            && e == start + decimal_text(v as nat).len(),
        r is None ==> forall|v: u8| !#[trigger] is_octet_at(t@, start as int, v),
{
    let mut j: usize = start;
    let mut value: u32 = 0;
    while j < n && char_is_digit(t.get_char(j))
        invariant
            n == t@.len(),
            start <= j <= n,
            value <= 255,
            forall|k: int| start <= k < j ==> is_decimal_digit(#[trigger] t@[k]),
            value == digits_value(t@.subrange(start as int, j as int)),
            j > start + 1 ==> t@[start as int] != '0',
        decreases n - j,
    {
        let c = t.get_char(j);
        if j > start && t.get_char(start) == '0' {
            proof {
                assert forall|v: u8| !#[trigger] is_octet_at(t@, start as int, v) by {
                    if is_octet_at(t@, start as int, v) {
                        lemma_decimal_text(v as nat);
                        assert(decimal_text(v as nat)[0] == t@[start as int]);
                        assert(t@[start + 1] == '0' || is_decimal_digit(t@[start + 1]));
                    }
                }
            }
            return None;
        }
        let ghost g = t@.subrange(start as int, j as int + 1);
        assert(g.drop_last() =~= t@.subrange(start as int, j as int));
        let next: u32 = value * 10 + (c as u32 - '0' as u32);
        if next > 255 {
            proof {
                assert forall|v: u8| !#[trigger] is_octet_at(t@, start as int, v) by {
                    if is_octet_at(t@, start as int, v) {
                        let d = decimal_text(v as nat);
                        lemma_decimal_text(v as nat);
                        let e = start + d.len();
                        if e <= j {
                            assert(is_decimal_digit(t@[e]));
                        } else {
                            assert(d.take(j + 1 - start) =~= g);
                            assert forall|i: int| 0 <= i < j + 1 - start implies is_decimal_digit(#[trigger] d[i]) by {
                                assert(d[i] == t@[start + i]);
                            }
                            crate::text::lemma_digits_value_prefix_bound(d, j + 1 - start);
                        }
                    }
                }
            }
            return None;
        }
        value = next;
        j = j + 1;
    }
    if j == start {
        proof {
            assert forall|v: u8| !#[trigger] is_octet_at(t@, start as int, v) by {
                if is_octet_at(t@, start as int, v) {
                    lemma_decimal_text(v as nat);
                    assert(decimal_text(v as nat)[0] == t@[start as int]);
                }
            }
        }
        return None;
    }
    proof {
        let f = t@.subrange(start as int, j as int);
        assert forall|i: int| 0 <= i < f.len() implies is_decimal_digit(#[trigger] f[i]) by {
            assert(f[i] == t@[start + i]);
        }
        crate::text::lemma_canonical_decimal(f);
    }
    Some((value as u8, j))
}

proof fn lemma_ipv4_text_injective(a: Seq<u8>, b: Seq<u8>)
    requires
        a.len() == 4,
        b.len() == 4,
        ipv4_text(a) == ipv4_text(b),
    ensures
        a == b,
{
    let t = ipv4_text(a);
    lemma_ipv4_layout(a);
    lemma_ipv4_layout(b);
    lemma_octet_unique(t, 0, a[0], b[0]);
    let s1 = decimal_text(a[0] as nat).len() as int + 1;
    lemma_octet_unique(t, s1, a[1], b[1]);
    let s2 = s1 + decimal_text(a[1] as nat).len() as int + 1;
    lemma_octet_unique(t, s2, a[2], b[2]);
    let s3 = s2 + decimal_text(a[2] as nat).len() as int + 1;
    lemma_octet_unique(t, s3, a[3], b[3]);
    assert(a =~= b);
}

/// The octets `v` were read from `t`, the first at the start and each next
/// one after the character that ends the one before, `e` holding where each
/// ends.
pub open spec fn reads_agree(t: Seq<char>, v: Seq<u8>, e: Seq<int>) -> bool {
    &&& v.len() == e.len() <= 4
    &&& v.len() >= 1 ==> is_octet_at(t, 0, v[0]) && e[0] == decimal_text(v[0] as nat).len()
    &&& v.len() >= 2 ==> is_octet_at(t, e[0] + 1, v[1]) && e[1] == e[0] + 1 + decimal_text(v[1] as nat).len()
    &&& v.len() >= 3 ==> is_octet_at(t, e[1] + 1, v[2]) && e[2] == e[1] + 1 + decimal_text(v[2] as nat).len()
    &&& v.len() >= 4 ==> is_octet_at(t, e[2] + 1, v[3]) && e[3] == e[2] + 1 + decimal_text(v[3] as nat).len()
}

/// Where the next octet starts: at the beginning, or after the character that
/// ends the last one read.
pub open spec fn next_start(e: Seq<int>) -> int {
    if e.len() == 0 {
        0
    } else {
        e[e.len() - 1] + 1
    }
}

/// Where the next step of reading fails (no octet where one is due, no dot
/// after an octet, or more text after the fourth), the text is no dotted quad.
proof fn lemma_read_fails(t: Seq<char>, v: Seq<u8>, e: Seq<int>)
    requires
        reads_agree(t, v, e),
        (v.len() < 4 && forall|w: u8| !#[trigger] is_octet_at(t, next_start(e), w))
            || (1 <= v.len() <= 3 && (e[v.len() - 1] >= t.len() || t[e[v.len() - 1]] != '.'))
            || (v.len() == 4 && e[3] != t.len()),
    ensures
        ipv4_from_text(t) is None,
{
    assert forall|a: [u8; 4]| t != ipv4_text(a@) by {
        if t == ipv4_text(a@) {
            lemma_ipv4_layout(a@);
            lemma_reads_agree(t, a, v, e);
            let s1 = decimal_text(a[0] as nat).len() as int + 1;
            let s2 = s1 + decimal_text(a[1] as nat).len() as int + 1;
            let s3 = s2 + decimal_text(a[2] as nat).len() as int + 1;
            if v.len() == 0 {
                assert(is_octet_at(t, next_start(e), a[0]));
            } else if v.len() == 1 {
                assert(v[0] == a[0]);
                assert(e[0] == s1 - 1);
                assert(next_start(e) == s1);
                assert(is_octet_at(t, next_start(e), a[1]));
            } else if v.len() == 2 {
                assert(v[0] == a[0] && v[1] == a[1]);
                assert(e[1] == s2 - 1);
                assert(next_start(e) == s2);
                assert(is_octet_at(t, next_start(e), a[2]));
            } else if v.len() == 3 {
                assert(v[0] == a[0] && v[1] == a[1] && v[2] == a[2]);
                assert(e[2] == s3 - 1);
                assert(next_start(e) == s3);
                assert(is_octet_at(t, next_start(e), a[3]));
            } else {
                assert(v[0] == a[0] && v[1] == a[1] && v[2] == a[2] && v[3] == a[3]);
                assert(e[3] == t.len());
            }
        }
    }
}

proof fn lemma_reads_agree(t: Seq<char>, a: [u8; 4], v: Seq<u8>, e: Seq<int>)
    requires
        t == ipv4_text(a@),
        reads_agree(t, v, e),
    ensures
        forall|k: int| 0 <= k < v.len() ==> v[k] == a[k],
{
    lemma_ipv4_layout(a@);
    if v.len() >= 1 {
        lemma_octet_unique(t, 0, v[0], a[0]);
    }
    if v.len() >= 2 {
        lemma_octet_unique(t, e[0] + 1, v[1], a[1]);
    }
    if v.len() >= 3 {
        lemma_octet_unique(t, e[1] + 1, v[2], a[2]);
    }
    if v.len() >= 4 {
        lemma_octet_unique(t, e[2] + 1, v[3], a[3]);
    }
}

/// Four octets read with a dot after each of the first three and nothing
/// after the last: the text is the dotted quad of those octets.
proof fn lemma_read_succeeds(t: Seq<char>, r: [u8; 4], e: Seq<int>)
    requires
        reads_agree(t, r@, e),
        r@.len() == 4,
        e[0] < t.len() && t[e[0]] == '.',
        e[1] < t.len() && t[e[1]] == '.',
        e[2] < t.len() && t[e[2]] == '.',
        e[3] == t.len(),
    ensures
        ipv4_from_text(t) == Some(r@),
{
    assert(t =~= t.subrange(0, e[0]) + seq!['.'] + t.subrange(e[0] + 1, e[1]) + seq!['.']
        + t.subrange(e[1] + 1, e[2]) + seq!['.'] + t.subrange(e[2] + 1, e[3]));
    assert(t == ipv4_text(r@));
    let b = choose|b: [u8; 4]| t == ipv4_text(b@);
    lemma_ipv4_text_injective(b@, r@);
}

/// Reads an address in dotted-quad notation: four decimal bytes without
/// leading zeros, separated by dots, and nothing else.
pub fn parse_ipv4_addr(t: &str) -> (r: Option<[u8; 4]>)
    ensures
        match r {
            Some(a) => ipv4_from_text(t@) == Some(a@),
            None => ipv4_from_text(t@) is None,
        },
{
    let n = t.unicode_len();
    let ghost v = Seq::<u8>::empty();
    let ghost e = Seq::<int>::empty();
    let (a0, e0) = match read_octet(t, n, 0) {
        Some(x) => x,
        None => {
            proof { lemma_read_fails(t@, v, e); }
            return None;
        },
    };
    proof { v = seq![a0]; e = seq![e0 as int]; }
    if e0 >= n || t.get_char(e0) != '.' {
        proof { lemma_read_fails(t@, v, e); }
        return None;
    }
    let (a1, e1) = match read_octet(t, n, e0 + 1) {
        Some(x) => x,
        None => {
            proof { lemma_read_fails(t@, v, e); }
            return None;
        },
    };
    proof { v = seq![a0, a1]; e = seq![e0 as int, e1 as int]; }
    if e1 >= n || t.get_char(e1) != '.' {
        proof { lemma_read_fails(t@, v, e); }
        return None;
    }
    let (a2, e2) = match read_octet(t, n, e1 + 1) {
        Some(x) => x,
        None => {
            proof { lemma_read_fails(t@, v, e); }
            return None;
        },
    };
    proof { v = seq![a0, a1, a2]; e = seq![e0 as int, e1 as int, e2 as int]; }
    if e2 >= n || t.get_char(e2) != '.' {
        proof { lemma_read_fails(t@, v, e); }
        return None;
    }
    let (a3, e3) = match read_octet(t, n, e2 + 1) {
        Some(x) => x,
        None => {
            proof { lemma_read_fails(t@, v, e); }
            return None;
        },
    };
    proof { v = seq![a0, a1, a2, a3]; e = seq![e0 as int, e1 as int, e2 as int, e3 as int]; }
    if e3 != n {
        proof { lemma_read_fails(t@, v, e); }
        return None;
    }
    let r = [a0, a1, a2, a3];
    proof {
        assert(r@ =~= v);
        lemma_read_succeeds(t@, r, e);
    }
    Some(r)
}

/// Writes an address in dotted-quad notation.
pub fn render_ipv4_addr(a: [u8; 4]) -> (r: String)
    ensures
        r@ == ipv4_text(a@),
{
    proof {
        reveal_strlit("");
        reveal_strlit(".");
    }
    let mut out = String::from_str("");
    push_decimal_u8(&mut out, a[0]);
    out.append(".");
    push_decimal_u8(&mut out, a[1]);
    out.append(".");
    push_decimal_u8(&mut out, a[2]);
    out.append(".");
    push_decimal_u8(&mut out, a[3]);
    assert(out@ =~= ipv4_text(a@));
    out
}

/// Every dotted-quad text reads back as the address it was written from, so
/// reading a dotted-quad text and writing the address gives the same text.
pub proof fn law_dotted_quad_round_trip(a: [u8; 4])
    ensures
        ipv4_from_text(ipv4_text(a@)) == Some(a@),
{
    let b = choose|b: [u8; 4]| ipv4_text(a@) == ipv4_text(b@);
    lemma_ipv4_text_injective(a@, b@);
}

/// The error of every failed IPv4 construction or parse.
#[derive(Debug, Clone, Copy, PartialEq, Eq, Hash)]
pub struct Ipv4Error;

impl Ipv4Error {
    pub fn to_string(&self) -> (r: String)
        ensures
            r@ == "IPv4 address error"@,
    {
        String::from_str("IPv4 address error")
    }
}

/// A network: its base address and its prefix length.
#[derive(Debug, Clone, Copy, PartialEq, Eq, Hash)]
pub struct Ipv4Net {
    addr: [u8; 4],
    prefix_len: u8,
}

impl Ipv4Net {
    pub closed spec fn spec_addr(&self) -> Seq<u8> {
        self.addr@
    }

    pub closed spec fn spec_prefix_len(&self) -> u8 {
        self.prefix_len
    }

    pub fn addr(&self) -> (r: [u8; 4])
        ensures
            r@ == self.spec_addr(),
    {
        self.addr
    }

    pub fn prefix_len(&self) -> (r: u8)
        ensures
            r == self.spec_prefix_len(),
    {
        self.prefix_len
    }
}

/// The text of a target: the address in dotted-quad notation, followed by `/`
/// and the prefix length in decimal where there is one.
pub open spec fn ipv4_target_text(ip: Seq<u8>, prefix_len: Option<u8>) -> Seq<char> {
    match prefix_len {
        None => ipv4_text(ip),
        Some(p) => ipv4_text(ip) + seq!['/'] + decimal_text(p as nat),
    }
}

/// The text of a target reads back as that target.
pub proof fn law_target_text_round_trip(ip: [u8; 4], prefix_len: Option<u8>)
    requires
        valid_target(ip@, prefix_len, 32),
    ensures
        ipv4_target_of(ipv4_target_text(ip@, prefix_len)) == Some((ip@, prefix_len)),
{
    let a = ipv4_text(ip@);
    law_dotted_quad_round_trip(ip);
    lemma_ipv4_layout(ip@);
    lemma_decimal_text(ip[0] as nat);
    lemma_decimal_text(ip[1] as nat);
    lemma_decimal_text(ip[2] as nat);
    lemma_decimal_text(ip[3] as nat);
    assert forall|i: int| 0 <= i < a.len() implies a[i] != '/' by {
        let d0 = decimal_text(ip[0] as nat);
        let d1 = decimal_text(ip[1] as nat);
        let d2 = decimal_text(ip[2] as nat);
        let d3 = decimal_text(ip[3] as nat);
        let s1 = d0.len() as int + 1;
        let s2 = s1 + d1.len() as int + 1;
        let s3 = s2 + d2.len() as int + 1;
        if i < s1 - 1 {
            assert(a[i] == d0[i]);
        } else if s1 <= i < s2 - 1 {
            assert(a[i] == d1[i - s1]);
        } else if s2 <= i < s3 - 1 {
            assert(a[i] == d2[i - s2]);
        } else if s3 <= i {
            assert(a[i] == d3[i - s3]);
        }
    }
    match prefix_len {
        None => {},
        Some(p) => {
            let d = decimal_text(p as nat);
            let t = a + seq!['/'] + d;
            lemma_decimal_text(p as nat);
            assert(t[a.len() as int] == '/');
            assert(t.take(a.len() as int) =~= a);
            crate::text::lemma_first_slash(t, a.len() as int);
            assert(t.skip(a.len() as int + 1) =~= d);
            assert forall|i: int| 0 <= i < d.len() implies d[i] != '/' by {
                assert(is_decimal_digit(d[i]));
            }
        },
    }
}

/// The target that an IPv4 target text denotes, where it denotes one.
pub open spec fn ipv4_target_of(s: Seq<char>) -> Option<(Seq<u8>, Option<u8>)> {
    match target_text_parts(s) {
        None => None,
        Some((a, prefix_text)) => target_of(ipv4_from_text(a), prefix_text, 32),
    }
}

pub open spec fn bytes_of(addr: Option<[u8; 4]>) -> Option<Seq<u8>> {
    match addr {
        Some(a) => Some(a@),
        None => None,
    }
}

pub open spec fn text_of(t: Option<&str>) -> Option<Seq<char>> {
    match t {
        Some(t) => Some(t@),
        None => None,
    }
}

/// An IPv4 host address, or a network given by its base address and prefix
/// length.
#[derive(Debug, Clone, Copy, PartialEq, Eq, Hash)]
pub struct Ipv4Target {
    ip: [u8; 4],
    prefix_len: Option<u8>,
}

impl Ipv4Target {
    pub closed spec fn spec_ip(&self) -> Seq<u8> {
        self.ip@
    }

    pub closed spec fn spec_prefix_len(&self) -> Option<u8> {
        self.prefix_len
    }

    /// The target holds four bytes and, where it has a prefix, at most 32 bits
    /// of prefix and the base address of its network.
    pub open spec fn wf(&self) -> bool {
        self.spec_ip().len() == 4 && valid_target(self.spec_ip(), self.spec_prefix_len(), 32)
    }

    /// A target from an address and an optional prefix length. A prefix longer
    /// than 32 bits fails, as does an address with bits set past its prefix.
    pub fn new(ip: [u8; 4], prefix_len: Option<u8>) -> (r: Result<Self, Ipv4Error>)
        ensures
            r is Ok <==> valid_target(ip@, prefix_len, 32),
            r matches Ok(t) ==> t.spec_ip() == ip@ && t.spec_prefix_len() == prefix_len && t.wf(),
    {
        if let Some(p) = prefix_len {
            if p > 32 {
                return Err(Ipv4Error);
            }
            let network = ipv4_network_address(ip, p);
            if !same_bytes(&ip, &network) {
                return Err(Ipv4Error);
            }
        }
        Ok(Ipv4Target { ip, prefix_len })
    }

    /// A target from a parsed address (none where the address text was no
    /// IPv4 address) and the text after the `/`, where one stood.
    pub fn from_parts(addr: Option<[u8; 4]>, prefix_text: Option<&str>) -> (r: Result<Self, Ipv4Error>)
        ensures
            r is Err <==> target_of(bytes_of(addr), text_of(prefix_text), 32) is None,
            r matches Ok(t) ==> t.wf() && target_of(bytes_of(addr), text_of(prefix_text), 32) == Some((t.spec_ip(), t.spec_prefix_len())),
    {
        let prefix_len = match prefix_text {
            None => None,
            Some(t) => match crate::text::parse_decimal_u8(t) {
                None => return Err(Ipv4Error),
                Some(p) => Some(p),
            },
        };
        match addr {
            None => Err(Ipv4Error),
            Some(ip) => Self::new(ip, prefix_len),
        }
    }

    /// Parses `addr` or `addr/prefix`, `addr` in dotted-quad notation and
    /// `prefix` a decimal number of at most 32. A second `/`, a prefix text that
    /// is no decimal number, and an address with bits set past its prefix all
    /// fail.
    pub fn from_str(s: &str) -> (r: Result<Self, Ipv4Error>)
        ensures
            r is Err <==> ipv4_target_of(s@) is None,
            r matches Ok(t) ==> t.wf() && ipv4_target_of(s@) == Some((t.spec_ip(), t.spec_prefix_len())),
    {
        match split_target(s) {
            None => Err(Ipv4Error),
            Some((a, prefix_text)) => Self::from_parts(parse_ipv4_addr(a), prefix_text),
        }
    }

    pub fn ip(&self) -> (r: [u8; 4])
        ensures
            r@ == self.spec_ip(),
    {
        self.ip
    }

    pub fn prefix_len(&self) -> (r: Option<u8>)
        ensures
            r == self.spec_prefix_len(),
    {
        self.prefix_len
    }

    pub fn is_net(&self) -> (r: bool)
        ensures
            r == self.spec_prefix_len() is Some,
    {
        self.prefix_len.is_some()
    }

    /// The network that the target names, where it has a prefix: the base
    /// address of the network of its address, and its prefix length.
    pub fn net(&self) -> (r: Option<Ipv4Net>)
        ensures
            match self.spec_prefix_len() {
                None => r is None,
                Some(p) => r matches Some(n) && n.spec_addr() == network_of(self.spec_ip(), p as int)
                    && n.spec_prefix_len() == p,
            },
    {
        match self.prefix_len {
            None => None,
            Some(p) => Some(Ipv4Net { addr: ipv4_network_address(self.ip, p), prefix_len: p }),
        }
    }

    /// The address in dotted-quad notation, followed by `/` and the prefix
    /// length where the target has one.
    pub fn to_string(&self) -> (r: String)
        ensures
            r@ == ipv4_target_text(self.spec_ip(), self.spec_prefix_len()),
    {
        let mut out = render_ipv4_addr(self.ip);
        if let Some(p) = self.prefix_len {
            proof {
                reveal_strlit("/");
            }
            out.append("/");
            push_decimal_u8(&mut out, p);
        }
        out
    }
}

} // verus!

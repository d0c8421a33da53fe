//! Validated DNS host names, and the addresses that resolving one gives.
use vstd::prelude::*;
use vstd::string::*;
use std::sync::Arc;
use crate::inet::IpAddress;
use crate::text::is_decimal_digit;

verus! {

#[derive(Debug, Clone, Copy, PartialEq, Eq)]
pub enum DnsError {
    /// The text is no valid host name.
    InvalidInput,
    /// Resolution failed, whatever the cause.
    ProtocolError,
}

impl DnsError {
    pub fn to_string(&self) -> (r: String)
        ensures
            r@ == match self {
                DnsError::InvalidInput => "Invalid input"@,
                DnsError::ProtocolError => "Protocol error"@,
            },
    {
        match self {
            DnsError::InvalidInput => String::from_str("Invalid input"),
            DnsError::ProtocolError => String::from_str("Protocol error"),
        }
    }
}

pub open spec fn is_alnum(c: char) -> bool {
    ('a' <= c && c <= 'z') || ('A' <= c && c <= 'Z') || ('0' <= c && c <= '9')
}

/// A host label: 1 to 63 ASCII letters, digits and hyphens, beginning and
/// ending with a letter or digit, and not made of digits alone.
pub open spec fn is_host_label(l: Seq<char>) -> bool {
    &&& 1 <= l.len() <= 63
    &&& is_alnum(l[0])
    &&& is_alnum(l.last())
    &&& forall|i: int| 0 <= i < l.len() ==> is_alnum(#[trigger] l[i]) || l[i] == '-'
    &&& exists|i: int| 0 <= i < l.len() && !is_decimal_digit(#[trigger] l[i])
}

/// The text without its trailing dots.
pub open spec fn trim_dots(h: Seq<char>) -> Seq<char>
    decreases h.len(),
{
    if h.len() > 0 && h.last() == '.' {
        trim_dots(h.drop_last())
    } else {
        h
    }
}

/// `h[i..j]` is one of the dot-separated segments of `h`.
pub open spec fn is_segment(h: Seq<char>, i: int, j: int) -> bool {
    &&& 0 <= i <= j <= h.len()
    &&& (i == 0 || h[i - 1] == '.')
    &&& (j == h.len() || h[j] == '.')
    &&& forall|k: int| i <= k < j ==> h[k] != '.'
}

/// Every dot-separated segment of `h` is a host label.
pub open spec fn all_labels(h: Seq<char>) -> bool {
    forall|i: int, j: int| #[trigger] is_segment(h, i, j) ==> is_host_label(h.subrange(i, j))
}

/// A host name: once its trailing dots are dropped, a non-empty text whose
/// dot-separated segments are all host labels.
pub open spec fn is_valid_host(h: Seq<char>) -> bool {
    let t = trim_dots(h);
    t.len() > 0 && all_labels(t)
}

/// Tells whether `label` is a host label.
pub fn is_valid_dns_host_label(label: &str) -> (r: bool)
    ensures
        r == is_host_label(label@),
{
    let n = label.unicode_len();
    if n == 0 || n > 63 {
        return false;
    }
    let first = label.get_char(0);
    let last = label.get_char(n - 1);
    let first_ok = ('a' <= first && first <= 'z') || ('A' <= first && first <= 'Z') || ('0' <= first && first <= '9');
    let last_ok = ('a' <= last && last <= 'z') || ('A' <= last && last <= 'Z') || ('0' <= last && last <= '9');
    if !first_ok || !last_ok {
        return false;
    }
    let mut all_digits = true;
    let mut i: usize = 0;
    while i < n
        invariant
            n == label@.len(),
            i <= n,
            forall|k: int| 0 <= k < i ==> is_alnum(#[trigger] label@[k]) || label@[k] == '-',
            all_digits <==> forall|k: int| 0 <= k < i ==> is_decimal_digit(#[trigger] label@[k]),
        decreases n - i,
    {
        let c = label.get_char(i);
        let alnum = ('a' <= c && c <= 'z') || ('A' <= c && c <= 'Z') || ('0' <= c && c <= '9');
        if !alnum && c != '-' {
            return false;
        }
        if !('0' <= c && c <= '9') {
            all_digits = false;
        }
        i = i + 1;
    }
    if all_digits {
        assert(!exists|k: int| 0 <= k < n && !is_decimal_digit(#[trigger] label@[k]));
        return false;
    }
    true
}

proof fn lemma_segment_found(h: Seq<char>, i: int, j: int, start: int, k: int)
    requires
        is_segment(h, i, j),
        0 <= start <= j <= k <= h.len(),
        start == 0 || h[start - 1] == '.',
        k == h.len() || h[k] == '.',
        forall|q: int| start <= q < k ==> h[q] != '.',
    ensures
        i == start && j == k,
{
    if j < k {
        assert(h[j] == '.');
    }
    if i < start {
        assert(h[start - 1] == '.');
    }
    if i > start {
        assert(h[i - 1] == '.');
    }
}

/// Tells whether `host` is a host name: trailing dots dropped, a non-empty
/// run of host labels separated by single dots.
pub fn is_valid_dns_host(host: &str) -> (r: bool)
    ensures
        r == is_valid_host(host@),
{
    let n = host.unicode_len();
    let mut e: usize = n;
    assert(host@.take(n as int) =~= host@);
    while e > 0 && host.get_char(e - 1) == '.'
        invariant
            n == host@.len(),
            e <= n,
            trim_dots(host@.take(e as int)) == trim_dots(host@),
        decreases e,
    {
        assert(host@.take(e as int).drop_last() =~= host@.take(e as int - 1));
        e = e - 1;
    }
    if e == 0 {
        assert(host@.take(0) =~= Seq::<char>::empty());
        return false;
    }
    let h = host.substring_char(0, e);
    assert(h@ =~= host@.take(e as int));
    assert(trim_dots(h@) == h@);
    let mut start: usize = 0;
    let mut k: usize = 0;
    while k < e
        invariant
            h@.len() == e,
            trim_dots(host@) == h@,
            start <= k <= e,
            start == 0 || h@[start - 1] == '.',
            forall|q: int| start <= q < k ==> h@[q] != '.',
            forall|i: int, j: int| #[trigger] is_segment(h@, i, j) && j < start ==> is_host_label(h@.subrange(i, j)),
        decreases e - k,
    {
        if h.get_char(k) == '.' {
            let label = h.substring_char(start, k);
            if !is_valid_dns_host_label(label) {
                assert(is_segment(h@, start as int, k as int));
                return false;
            }
            assert forall|i: int, j: int| #[trigger] is_segment(h@, i, j) && j < k + 1 implies is_host_label(h@.subrange(i, j)) by {
                if j >= start {
                    lemma_segment_found(h@, i, j, start as int, k as int);
                }
            }
            start = k + 1;
        }
        k = k + 1;
    }
    let label = h.substring_char(start, e);
    if !is_valid_dns_host_label(label) {
        assert(is_segment(h@, start as int, e as int));
        return false;
    }
    assert forall|i: int, j: int| #[trigger] is_segment(h@, i, j) implies is_host_label(h@.subrange(i, j)) by {
        if j >= start {
            lemma_segment_found(h@, i, j, start as int, e as int);
        }
    }
    true
}

/// The text of the DNS name that `s` denotes, as hickory reads and writes it
/// (escapes resolved, international labels in their ASCII form); none where
/// `s` is no DNS name.
pub uninterp spec fn dns_name_text(s: Seq<char>) -> Option<Seq<char>>;

/// Relies on `hickory_proto::rr::Name::from_str` to read the name, and on its
/// `Display` to write it back.
#[verifier::external_body]
fn normalize_dns_name(s: &str) -> (r: Option<String>)
    ensures
        match r {
            Some(t) => dns_name_text(s@) == Some(t@),
            None => dns_name_text(s@) is None,
        },
{
    s.parse::<hickory_proto::rr::Name>().ok().map(|name| name.to_string())
}

/// A host name that has been read as a DNS name and checked label by label.
/// Its text is shared by every clone and never changes.
#[derive(Debug, Clone, PartialEq, Eq, Hash)]
pub struct DnsHostname {
    hostname: Arc<String>,
}

impl DnsHostname {
    pub closed spec fn spec_str(&self) -> Seq<char> {
        self.hostname@
    }

    /// Reads `hostname` as a DNS name; its text must then be a host name.
    pub fn new(hostname: &str) -> (r: Result<Self, DnsError>)
        ensures
            r is Ok <==> (dns_name_text(hostname@) matches Some(t) && is_valid_host(t)),
            r matches Ok(h) ==> dns_name_text(hostname@) == Some(h.spec_str()),
            r matches Err(e) ==> e == DnsError::InvalidInput,
    {
        match normalize_dns_name(hostname) {
            None => Err(DnsError::InvalidInput),
            Some(name) => {
                if is_valid_dns_host(name.as_str()) {
                    Ok(DnsHostname { hostname: Arc::new(name) })
                } else {
                    Err(DnsError::InvalidInput)
                }
            },
        }
    }

    pub fn as_str(&self) -> (r: &str)
        ensures
            r@ == self.spec_str(),
    {
        let name: &String = &self.hostname;
        name.as_str()
    }

    pub fn to_string(&self) -> (r: String)
        ensures
            r@ == self.spec_str(),
    {
        String::from_str(self.as_str())
    }

    /// The text handed to the system resolver: the name with port 0, since no
    /// particular service is looked up.
    pub fn lookup_text(&self) -> (r: String)
        ensures
            r@ == self.spec_str() + seq![':', '0'],
    {
        proof {
            reveal_strlit(":0");
        }
        let mut out = String::from_str(self.as_str());
        out.append(":0");
        out
    }
}

/// The IPv4 addresses of a resolver's answer, in its order.
pub open spec fn v4_addrs(s: Seq<IpAddress>) -> Seq<[u8; 4]>
    decreases s.len(),
{
    if s.len() == 0 {
        Seq::empty()
    } else {
        let rest = v4_addrs(s.drop_last());
        match s.last() {
            IpAddress::V4(a) => rest.push(a),
            IpAddress::V6(_) => rest,
        }
    }
}

/// The IPv6 addresses of a resolver's answer, in its order.
pub open spec fn v6_addrs(s: Seq<IpAddress>) -> Seq<[u8; 16]>
    decreases s.len(),
{
    if s.len() == 0 {
        Seq::empty()
    } else {
        let rest = v6_addrs(s.drop_last());
        match s.last() {
            IpAddress::V4(_) => rest,
            IpAddress::V6(a) => rest.push(a),
        }
    }
}

/// The addresses that resolving a host name gave, by family.
#[derive(Debug, Clone, PartialEq, Eq, Hash)]
pub struct ResolvedAddrs {
    v4: Vec<[u8; 4]>,
    v6: Vec<[u8; 16]>,
}

impl ResolvedAddrs {
    pub closed spec fn spec_v4(&self) -> Seq<[u8; 4]> {
        self.v4@
    }

    pub closed spec fn spec_v6(&self) -> Seq<[u8; 16]> {
        self.v6@
    }

    /// Sorts a resolver's answer by family, keeping its order within each.
    pub fn from_addrs(addrs: &[IpAddress]) -> (r: Self)
        ensures
            r.spec_v4() == v4_addrs(addrs@),
            r.spec_v6() == v6_addrs(addrs@),
    {
        let mut v4: Vec<[u8; 4]> = Vec::new();
        let mut v6: Vec<[u8; 16]> = Vec::new();
        let mut i: usize = 0;
        while i < addrs.len()
            invariant
                i <= addrs@.len(),
                v4@ == v4_addrs(addrs@.take(i as int)),
                v6@ == v6_addrs(addrs@.take(i as int)),
            decreases addrs@.len() - i,
        {
            assert(addrs@.take(i as int + 1).drop_last() =~= addrs@.take(i as int));
            match addrs[i] {
                IpAddress::V4(a) => v4.push(a),
                IpAddress::V6(a) => v6.push(a),
            }
            i = i + 1;
        }
        assert(addrs@.take(addrs@.len() as int) =~= addrs@);
        ResolvedAddrs { v4, v6 }
    }

    /// The outcome of a resolution: the resolver's answer sorted by family, or
    /// a protocol error where the resolver failed, for whatever cause.
    pub fn from_lookup(lookup: Option<&[IpAddress]>) -> (r: Result<Self, DnsError>)
        ensures
            match lookup {
                None => r == Err::<Self, DnsError>(DnsError::ProtocolError),
                Some(addrs) => r matches Ok(a) && a.spec_v4() == v4_addrs(addrs@) && a.spec_v6() == v6_addrs(addrs@),
            },
    {
        match lookup {
            None => Err(DnsError::ProtocolError),
            Some(addrs) => Ok(Self::from_addrs(addrs)),
        }
    }

    pub fn v4(&self) -> (r: &[[u8; 4]])
        ensures
            r@ == self.spec_v4(),
    {
        self.v4.as_slice()
    }

    pub fn v6(&self) -> (r: &[[u8; 16]])
        ensures
            r@ == self.spec_v6(),
    {
        self.v6.as_slice()
    }
}

/// Sorting by family loses and adds nothing: the two lists together are as
/// long as the answer, each address of the answer is in the list of its
/// family, and each listed address is in the answer.
pub proof fn law_partition(s: Seq<IpAddress>)
    ensures
        v4_addrs(s).len() + v6_addrs(s).len() == s.len(),
        forall|i: int| 0 <= i < s.len() ==> match #[trigger] s[i] {
            IpAddress::V4(a) => v4_addrs(s).contains(a),
            IpAddress::V6(a) => v6_addrs(s).contains(a),
        },
        forall|a: [u8; 4]| #[trigger] v4_addrs(s).contains(a) ==> s.contains(IpAddress::V4(a)),
        forall|a: [u8; 16]| #[trigger] v6_addrs(s).contains(a) ==> s.contains(IpAddress::V6(a)),
    decreases s.len(),
{
    if s.len() > 0 {
        let t = s.drop_last();
        law_partition(t);
        assert forall|i: int| 0 <= i < s.len() implies match #[trigger] s[i] {
            IpAddress::V4(a) => v4_addrs(s).contains(a),
            IpAddress::V6(a) => v6_addrs(s).contains(a),
        } by {
            if i < s.len() - 1 {
                assert(s[i] == t[i]);
                match s[i] {
                    IpAddress::V4(a) => {
                        let k = choose|k: int| 0 <= k < v4_addrs(t).len() && v4_addrs(t)[k] == a;
                        assert(v4_addrs(s)[k] == a);
                    },
                    IpAddress::V6(a) => {
                        let k = choose|k: int| 0 <= k < v6_addrs(t).len() && v6_addrs(t)[k] == a;
                        assert(v6_addrs(s)[k] == a);
                    },
                }
            } else {
                match s[i] {
                    IpAddress::V4(a) => assert(v4_addrs(s).last() == a),
                    IpAddress::V6(a) => assert(v6_addrs(s).last() == a),
                }
            }
        }
        assert forall|a: [u8; 4]| #[trigger] v4_addrs(s).contains(a) implies s.contains(IpAddress::V4(a)) by {
            let k = choose|k: int| 0 <= k < v4_addrs(s).len() && v4_addrs(s)[k] == a;
            if k < v4_addrs(t).len() {
                assert(v4_addrs(t)[k] == a);
                assert(v4_addrs(t).contains(a));
                assert(t.contains(IpAddress::V4(a)));
                let m = choose|m: int| 0 <= m < t.len() && t[m] == IpAddress::V4(a);
                assert(s[m] == t[m]);
            } else {
                assert(s[s.len() - 1] == IpAddress::V4(a));
            }
        }
        assert forall|a: [u8; 16]| #[trigger] v6_addrs(s).contains(a) implies s.contains(IpAddress::V6(a)) by {
            let k = choose|k: int| 0 <= k < v6_addrs(s).len() && v6_addrs(s)[k] == a;
            if k < v6_addrs(t).len() {
                assert(v6_addrs(t)[k] == a);
                assert(v6_addrs(t).contains(a));
                assert(t.contains(IpAddress::V6(a)));
                let m = choose|m: int| 0 <= m < t.len() && t[m] == IpAddress::V6(a);
                assert(s[m] == t[m]);
            } else {
                assert(s[s.len() - 1] == IpAddress::V6(a));
            }
        }
    }
}

} // verus!

//! IPv6 targets: a host address, or a network given by its base address and
//! prefix length.
use vstd::prelude::*;
use crate::prefix::{same_bytes, mask_byte, network_of, subnet_mask, target_of, top_bits, valid_target};
use crate::text::{decimal_text, push_decimal_u8, split_target, target_text_parts};
use vstd::string::*;

verus! {

/// The subnet mask of a prefix of `prefix_len` bits, most significant byte
/// first: whole bytes of ones, then the byte that holds the rest of the prefix.
/// A prefix longer than 128 bits keeps every bit.
fn ipv6_subnet_mask(prefix_len: u8) -> (r: [u8; 16])
    ensures
        r@ == subnet_mask(prefix_len as int, 16),
{
    let ghost given = prefix_len;
    let prefix_len: u8 = if prefix_len > 128 { 128 } else { prefix_len };
    let mut mask = [0u8; 16];
    let full: u8 = prefix_len / 8;
    let mut i: u8 = 0;
    while i < full
        invariant
            full == prefix_len / 8,
            full <= 16,
            i <= full,
            forall|k: int| 0 <= k < i ==> mask@[k] == 0xffu8,
            forall|k: int| i <= k < 16 ==> mask@[k] == 0u8,
        decreases full - i,
    {
        mask[i as usize] = 0xff;
        i = i + 1;
    }
    let rest: u8 = prefix_len % 8;
    if rest != 0 {
        mask[full as usize] = 0xffu8 << (8 - rest);
        assert(mask@[full as int] == top_bits(rest));
    }
    assert forall|k: int| 0 <= k < 16 implies mask@[k] == #[trigger] mask_byte(given as int, k) by {
        if k < full {
            assert(prefix_len - 8 * k >= 8);
        } else if k == full {
            assert(prefix_len - 8 * k == rest);
        } else {
            assert(prefix_len - 8 * k <= 0);
        }
    }
    assert(mask@ =~= subnet_mask(given as int, 16));
    mask
}

/// The first address of the network of `ip` under `prefix_len`.
fn ipv6_network_address(ip: [u8; 16], prefix_len: u8) -> (r: [u8; 16])
    ensures
        r@ == network_of(ip@, prefix_len as int),
{
    let mask = ipv6_subnet_mask(prefix_len);
    let mut addr = [0u8; 16];
    let mut i: usize = 0;
    while i < 16
        invariant
            mask@ == subnet_mask(prefix_len as int, 16),
            i <= 16,
            forall|k: int| 0 <= k < i ==> addr@[k] == #[trigger] network_of(ip@, prefix_len as int)[k],
        decreases 16 - i,
    {
        addr[i] = ip[i] & mask[i];
        i = i + 1;
    }
    assert(addr@ =~= network_of(ip@, prefix_len as int));
    addr
}

/// The address the text denotes in colon-separated notation, as the standard
/// library reads it; none where the text is no IPv6 address.
pub uninterp spec fn ipv6_from_text(t: Seq<char>) -> Option<Seq<u8>>;

/// The text of an IPv6 address, as the standard library writes it.
pub uninterp spec fn ipv6_text(a: Seq<u8>) -> Seq<char>;

/// Relies on `hickory_proto::rr::rdata::AAAA::from_str`, which reads the text as
/// `Ipv6Addr::from_str` does; the octets are handed back in order.
#[verifier::external_body]
fn parse_ipv6_addr(t: &str) -> (r: Option<[u8; 16]>)
    ensures
        match r {
            Some(a) => ipv6_from_text(t@) == Some(a@),
            None => ipv6_from_text(t@) is None,
        },
{
    t.parse::<hickory_proto::rr::rdata::AAAA>().ok().map(|a| a.0.octets())
}

/// Relies on the `Display` of `hickory_proto::rr::rdata::AAAA`, which writes the
/// address as `Ipv6Addr` does.
#[verifier::external_body]
fn render_ipv6_addr(a: [u8; 16]) -> (r: String)
    ensures
        r@ == ipv6_text(a@),
{
    hickory_proto::rr::rdata::AAAA(a.into()).to_string()
}

/// The error of every failed IPv6 construction or parse.
#[derive(Debug, Clone, Copy, PartialEq, Eq, Hash)]
pub struct Ipv6Error;

impl Ipv6Error {
    pub fn to_string(&self) -> (r: String)
        ensures
            r@ == "IPv6 address error"@,
    {
        String::from_str("IPv6 address error")
    }
}

/// A network: its base address and its prefix length.
#[derive(Debug, Clone, Copy, PartialEq, Eq, Hash)]
pub struct Ipv6Net {
    addr: [u8; 16],
    prefix_len: u8,
}

impl Ipv6Net {
    pub closed spec fn spec_addr(&self) -> Seq<u8> {
        self.addr@
    }

    pub closed spec fn spec_prefix_len(&self) -> u8 {
        self.prefix_len
    }

    pub fn addr(&self) -> (r: [u8; 16])
        ensures
            r@ == self.spec_addr(),
    {
        self.addr
    }

    pub fn prefix_len(&self) -> (r: u8)
        ensures
            r == self.spec_prefix_len(),
    {
        self.prefix_len
    }
}

/// The text of a target: the address, followed by `/` and the prefix length in
/// decimal where there is one.
pub open spec fn ipv6_target_text(ip: Seq<u8>, prefix_len: Option<u8>) -> Seq<char> {
    match prefix_len {
        None => ipv6_text(ip),
        Some(p) => ipv6_text(ip) + seq!['/'] + decimal_text(p as nat),
    }
}

/// The target that an IPv6 target text denotes, where it denotes one.
pub open spec fn ipv6_target_of(s: Seq<char>) -> Option<(Seq<u8>, Option<u8>)> {
    match target_text_parts(s) {
        None => None,
        Some((a, prefix_text)) => target_of(ipv6_from_text(a), prefix_text, 128),
    }
}

pub open spec fn bytes_of(addr: Option<[u8; 16]>) -> Option<Seq<u8>> {
    match addr {
        Some(a) => Some(a@),
        None => None,
    }
}

pub open spec fn text_of(t: Option<&str>) -> Option<Seq<char>> {
    match t {
        Some(t) => Some(t@),
        None => None,
    }
}

/// An IPv6 host address, or a network given by its base address and prefix
/// length.
#[derive(Debug, Clone, Copy, PartialEq, Eq, Hash)]
pub struct Ipv6Target {
    ip: [u8; 16],
    prefix_len: Option<u8>,
}

impl Ipv6Target {
    pub closed spec fn spec_ip(&self) -> Seq<u8> {
        self.ip@
    }

    pub closed spec fn spec_prefix_len(&self) -> Option<u8> {
        self.prefix_len
    }

    /// The target holds sixteen bytes and, where it has a prefix, at most 128 bits
    /// of prefix and the base address of its network.
    pub open spec fn wf(&self) -> bool {
        self.spec_ip().len() == 16 && valid_target(self.spec_ip(), self.spec_prefix_len(), 128)
    }

    /// A target from an address and an optional prefix length. A prefix longer
    /// than 128 bits fails, as does an address with bits set past its prefix.
    pub fn new(ip: [u8; 16], prefix_len: Option<u8>) -> (r: Result<Self, Ipv6Error>)
        ensures
            r is Ok <==> valid_target(ip@, prefix_len, 128),
            r matches Ok(t) ==> t.spec_ip() == ip@ && t.spec_prefix_len() == prefix_len && t.wf(),
    {
        if let Some(p) = prefix_len {
            if p > 128 {
                return Err(Ipv6Error);
            }
            let network = ipv6_network_address(ip, p);
            if !same_bytes(&ip, &network) {
                return Err(Ipv6Error);
            }
        }
        Ok(Ipv6Target { ip, prefix_len })
    }

    /// A target from a parsed address (none where the address text was no
    /// IPv6 address) and the text after the `/`, where one stood.
    pub fn from_parts(addr: Option<[u8; 16]>, prefix_text: Option<&str>) -> (r: Result<Self, Ipv6Error>)
        ensures
            r is Err <==> target_of(bytes_of(addr), text_of(prefix_text), 128) is None,
            r matches Ok(t) ==> t.wf() && target_of(bytes_of(addr), text_of(prefix_text), 128) == Some((t.spec_ip(), t.spec_prefix_len())),
    {
        let prefix_len = match prefix_text {
            None => None,
            Some(t) => match crate::text::parse_decimal_u8(t) {
                None => return Err(Ipv6Error),
                Some(p) => Some(p),
            },
        };
        match addr {
            None => Err(Ipv6Error),
            Some(ip) => Self::new(ip, prefix_len),
        }
    }

    /// Parses `addr` or `addr/prefix`, `addr` in colon-separated notation and
    /// `prefix` a decimal number of at most 128. A second `/`, a prefix text that
    /// is no decimal number, and an address with bits set past its prefix all
    /// fail.
    pub fn from_str(s: &str) -> (r: Result<Self, Ipv6Error>)
        ensures
            r is Err <==> ipv6_target_of(s@) is None,
            r matches Ok(t) ==> t.wf() && ipv6_target_of(s@) == Some((t.spec_ip(), t.spec_prefix_len())),
    {
        match split_target(s) {
            None => Err(Ipv6Error),
            Some((a, prefix_text)) => Self::from_parts(parse_ipv6_addr(a), prefix_text),
        }
    }

    pub fn ip(&self) -> (r: [u8; 16])
        ensures
            r@ == self.spec_ip(),
    {
        self.ip
    }

    pub fn prefix_len(&self) -> (r: Option<u8>)
        ensures
            r == self.spec_prefix_len(),
    {
        self.prefix_len
    }

    pub fn is_net(&self) -> (r: bool)
        ensures
            r == self.spec_prefix_len() is Some,
    {
        self.prefix_len.is_some()
    }

    /// The network that the target names, where it has a prefix: the base
    /// address of the network of its address, and its prefix length.
    pub fn net(&self) -> (r: Option<Ipv6Net>)
        ensures
            match self.spec_prefix_len() {
                None => r is None,
                Some(p) => r matches Some(n) && n.spec_addr() == network_of(self.spec_ip(), p as int)
                    && n.spec_prefix_len() == p,
            },
    {
        match self.prefix_len {
            None => None,
            Some(p) => Some(Ipv6Net { addr: ipv6_network_address(self.ip, p), prefix_len: p }),
        }
    }

    /// The address in colon-separated notation, followed by `/` and the prefix
    /// length where the target has one.
    pub fn to_string(&self) -> (r: String)
        ensures
            r@ == ipv6_target_text(self.spec_ip(), self.spec_prefix_len()),
    {
        let mut out = render_ipv6_addr(self.ip);
        if let Some(p) = self.prefix_len {
            proof {
                reveal_strlit("/");
            }
            out.append("/");
            push_decimal_u8(&mut out, p);
        }
        out
    }
}

} // verus!

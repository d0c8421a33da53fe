//! A target of either address family, with family-agnostic parsing and
//! accessors.
use vstd::prelude::*;
use crate::ipv4::{Ipv4Error, Ipv4Net, Ipv4Target, ipv4_target_of, ipv4_target_text};
use crate::ipv6::{Ipv6Error, Ipv6Net, Ipv6Target, ipv6_target_of, ipv6_target_text};
use crate::prefix::network_of;

verus! {

#[derive(Debug, Clone, Copy, PartialEq, Eq, Hash)]
pub enum InetError {
    V4(Ipv4Error),
    V6(Ipv6Error),
    /// The text is a target of neither family.
    Other,
}

impl InetError {
    pub fn to_string(&self) -> (r: String)
        ensures
            r@ == match self {
                InetError::V4(_) => "IPv4 error: IPv4 address error"@,
                InetError::V6(_) => "IPv6 error: IPv6 address error"@,
                InetError::Other => "Other error"@,
            },
    {
        match self {
            InetError::V4(_) => String::from_str("IPv4 error: IPv4 address error"),
            InetError::V6(_) => String::from_str("IPv6 error: IPv6 address error"),
            InetError::Other => String::from_str("Other error"),
        }
    }
}

/// An address of either family, as its bytes.
#[derive(Debug, Clone, Copy, PartialEq, Eq, Hash)]
pub enum IpAddress {
    V4([u8; 4]),
    V6([u8; 16]),
}

/// A network of either family.
#[derive(Debug, Clone, Copy, PartialEq, Eq, Hash)]
pub enum IpNet {
    V4(Ipv4Net),
    V6(Ipv6Net),
}

#[derive(Debug, Clone, Copy, PartialEq, Eq, Hash)]
pub enum InetTarget {
    V4(Ipv4Target),
    V6(Ipv6Target),
}

impl InetTarget {
    pub open spec fn wf(&self) -> bool {
        match self {
            InetTarget::V4(t) => t.wf(),
            InetTarget::V6(t) => t.wf(),
        }
    }

    pub open spec fn spec_ip(&self) -> Seq<u8> {
        match self {
            InetTarget::V4(t) => t.spec_ip(),
            InetTarget::V6(t) => t.spec_ip(),
        }
    }

    pub open spec fn spec_prefix_len(&self) -> Option<u8> {
        match self {
            InetTarget::V4(t) => t.spec_prefix_len(),
            InetTarget::V6(t) => t.spec_prefix_len(),
        }
    }

    /// Parses the text as an IPv4 target, and failing that as an IPv6 target.
    pub fn from_str(s: &str) -> (r: Result<Self, InetError>)
        ensures
            ipv4_target_of(s@) is Some ==> (r matches Ok(InetTarget::V4(t))
                && ipv4_target_of(s@) == Some((t.spec_ip(), t.spec_prefix_len()))),
            ipv4_target_of(s@) is None && ipv6_target_of(s@) is Some ==> (r matches Ok(InetTarget::V6(t))
                && ipv6_target_of(s@) == Some((t.spec_ip(), t.spec_prefix_len()))),
            ipv4_target_of(s@) is None && ipv6_target_of(s@) is None ==> r == Err::<Self, InetError>(InetError::Other),
            r matches Ok(t) ==> t.wf(),
    {
        if let Ok(v4) = Ipv4Target::from_str(s) {
            return Ok(InetTarget::V4(v4));
        }
        if let Ok(v6) = Ipv6Target::from_str(s) {
            return Ok(InetTarget::V6(v6));
        }
        Err(InetError::Other)
    }

    pub fn ip(&self) -> (r: IpAddress)
        ensures
            match (self, r) {
                (InetTarget::V4(t), IpAddress::V4(a)) => a@ == t.spec_ip(),
                (InetTarget::V6(t), IpAddress::V6(a)) => a@ == t.spec_ip(),
                _ => false,
            },
    {
        match self {
            InetTarget::V4(v4) => IpAddress::V4(v4.ip()),
            InetTarget::V6(v6) => IpAddress::V6(v6.ip()),
        }
    }

    pub fn prefix_len(&self) -> (r: Option<u8>)
        ensures
            r == self.spec_prefix_len(),
    {
        match self {
            InetTarget::V4(v4) => v4.prefix_len(),
            InetTarget::V6(v6) => v6.prefix_len(),
        }
    }

    pub fn is_net(&self) -> (r: bool)
        ensures
            r == self.spec_prefix_len() is Some,
    {
        match self {
            InetTarget::V4(v4) => v4.is_net(),
            InetTarget::V6(v6) => v6.is_net(),
        }
    }

    /// The network that the target names, of the target's family, where it has
    /// a prefix.
    pub fn net(&self) -> (r: Option<IpNet>)
        ensures
            match (self, r) {
                (_, None) => self.spec_prefix_len() is None,
                (InetTarget::V4(t), Some(IpNet::V4(n))) => t.spec_prefix_len() == Some(n.spec_prefix_len())
                    && n.spec_addr() == network_of(t.spec_ip(), n.spec_prefix_len() as int),
                (InetTarget::V6(t), Some(IpNet::V6(n))) => t.spec_prefix_len() == Some(n.spec_prefix_len())
                    && n.spec_addr() == network_of(t.spec_ip(), n.spec_prefix_len() as int),
                _ => false,
            },
    {
        match self {
            InetTarget::V4(v4) => match v4.net() {
                Some(n) => Some(IpNet::V4(n)),
                None => None,
            },
            InetTarget::V6(v6) => match v6.net() {
                Some(n) => Some(IpNet::V6(n)),
                None => None,
            },
        }
    }

    /// The text of the held target.
    pub fn to_string(&self) -> (r: String)
        ensures
            r@ == match self {
                InetTarget::V4(t) => ipv4_target_text(t.spec_ip(), t.spec_prefix_len()),
                InetTarget::V6(t) => ipv6_target_text(t.spec_ip(), t.spec_prefix_len()),
            },
    {
        match self {
            InetTarget::V4(v4) => v4.to_string(),
            InetTarget::V6(v6) => v6.to_string(),
        }
    }
}

} // verus!

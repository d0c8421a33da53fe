//! Prefix masks and network base addresses, shared by both address families.
use vstd::prelude::*;
use crate::text::decimal_u8;

verus! {

/// The byte whose `n` most significant bits are set (`n` in `0..=8`).
pub open spec fn top_bits(n: u8) -> u8 {
    if n == 0 {
        0u8
    } else if n >= 8 {
        0xffu8
    } else {
        (0xffu8 << ((8 - n) as u8)) as u8
    }
}

/// Byte `i` (counted from the most significant byte) of the subnet mask of a
/// prefix of `prefix_len` bits.
pub open spec fn mask_byte(prefix_len: int, i: int) -> u8 {
    let n = prefix_len - 8 * i;
    if n <= 0 {
        0u8
    } else if n >= 8 {
        0xffu8
    } else {
        top_bits(n as u8)
    }
}

/// The subnet mask of a prefix of `prefix_len` bits, `len` bytes wide.
pub open spec fn subnet_mask(prefix_len: int, len: nat) -> Seq<u8> {
    Seq::new(len, |i: int| mask_byte(prefix_len, i))
}

/// The first address of the network of `ip` under a prefix of `prefix_len`
/// bits: every bit past the prefix cleared.
pub open spec fn network_of(ip: Seq<u8>, prefix_len: int) -> Seq<u8> {
    Seq::new(ip.len(), |i: int| ip[i] & mask_byte(prefix_len, i))
}

/// `ip` is the base address of its own network under `prefix_len`.
pub open spec fn is_network_base(ip: Seq<u8>, prefix_len: int) -> bool {
    network_of(ip, prefix_len) == ip
}

/// An address with an optional prefix length is a valid target of an address
/// family `width` bits wide: a prefix, where given, is at most `width` and the
/// address is the base of its network.
pub open spec fn valid_target(ip: Seq<u8>, prefix_len: Option<u8>, width: int) -> bool {
    match prefix_len {
        None => true,
        Some(p) => p <= width && is_network_base(ip, p as int),
    }
}

/// The target that the parts of a target text give: the address that its
/// address text denotes (where it denotes one) and the prefix length that its
/// prefix text gives (where a `/` stands). A prefix text that is not a decimal
/// number fails the whole text, as does a host address under a prefix.
pub open spec fn target_of(
    addr: Option<Seq<u8>>,
    prefix_text: Option<Seq<char>>,
    width: int,
) -> Option<(Seq<u8>, Option<u8>)> {
    let prefix_len = match prefix_text {
        None => Some(None::<u8>),
        Some(t) => match decimal_u8(t) {
            None => None,
            Some(p) => Some(Some(p)),
        },
    };
    match (addr, prefix_len) {
        (Some(ip), Some(p)) => if valid_target(ip, p, width) {
            Some((ip, p))
        } else {
            None
        },
        _ => None,
    }
}

/// Compares two addresses byte by byte.
pub fn same_bytes(a: &[u8], b: &[u8]) -> (r: bool)
    ensures
        r == (a@ == b@),
{
    if a.len() != b.len() {
        return false;
    }
    let mut i: usize = 0;
    while i < a.len()
        invariant
            a@.len() == b@.len(),
            i <= a@.len(),
            forall|k: int| 0 <= k < i ==> a@[k] == b@[k],
        decreases a@.len() - i,
    {
        if a[i] != b[i] {
            return false;
        }
        i = i + 1;
    }
    assert(a@ =~= b@);
    true
}

/// Clearing the host bits twice gives what clearing them once gives: a network
/// address is the base of its own network.
pub proof fn lemma_network_of_is_base(ip: Seq<u8>, prefix_len: int)
    ensures
        is_network_base(network_of(ip, prefix_len), prefix_len),
{
    let n = network_of(ip, prefix_len);
    assert forall|i: int| 0 <= i < n.len() implies #[trigger] network_of(n, prefix_len)[i] == n[i] by {
        let a = ip[i];
        let m = mask_byte(prefix_len, i);
        assert((a & m) & m == a & m) by (bit_vector);
    }
    assert(network_of(n, prefix_len) =~= n);
}

/// For a prefix that fits the family, a target is accepted exactly when its
/// address is the base of its network under that prefix, and then the network
/// it names is that address with that prefix. The base of the network of any
/// address is accepted with the same prefix.
pub proof fn law_network_base(ip: Seq<u8>, prefix_len: u8, width: int)
    requires
        prefix_len <= width,
    ensures
        valid_target(ip, Some(prefix_len), width) <==> is_network_base(ip, prefix_len as int),
        valid_target(ip, Some(prefix_len), width) ==> network_of(ip, prefix_len as int) == ip,
        valid_target(network_of(ip, prefix_len as int), Some(prefix_len), width),
{
    lemma_network_of_is_base(ip, prefix_len as int);
}

} // verus!

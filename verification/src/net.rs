//! Network prefixes as the `ipnet` crate reads them.
use vstd::prelude::*;
use crate::cidr::valid_prefix;
use crate::ip::IpAddress;

verus! {

/// What `ipnet::IpNet::from_str` reads from a text: the address as written
/// and the prefix length, or nothing when the text is not a network in
/// CIDR notation.
pub uninterp spec fn ipnet_parsed(s: Seq<char>) -> Option<(IpAddress, u8)>;

/// `ipnet::IpNet::from_str`, giving the address as written and the prefix
/// length. Claimed: the result is `ipnet_parsed` of the text, and a
/// prefix length fits its address family (the parser builds the value with
/// `Ipv4Net::new` or `Ipv6Net::new`, which refuse longer prefixes). What
/// texts the parser accepts is left unsaid.
#[verifier::external_body]
pub(crate) fn parse_ipnet(s: &str) -> (r: Option<(IpAddress, u8)>)
    ensures
        r == ipnet_parsed(s@),
        r matches Some((a, p)) ==> valid_prefix(a, p),
{
    match s.parse::<ipnet::IpNet>() {
        Ok(ipnet::IpNet::V4(n)) => Some((IpAddress::V4(u32::from(n.addr())), n.prefix_len())),
        Ok(ipnet::IpNet::V6(n)) => Some((IpAddress::V6(u128::from(n.addr())), n.prefix_len())),
        Err(_) => None,
    }
}

} // verus!

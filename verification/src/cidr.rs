//! Address prefixes as the registry names them: `<address>_<prefix length>`.
use vstd::prelude::*;
use crate::ip::{
    IpAddress, first_run_of, ip_text, is_v4_mapped, join_hex, lemma_join_hex_chars,
    lemma_parse_ip_lower, lemma_parse_ip_text, longest_zero_run, octet, parse_ip, parse_ip_chars, push_ip, segments,
    v4_text, v6_text,
};
use crate::text::{
    ascii_lower, lemma_all_digits_lower, lemma_find_from_lower, lemma_lower_slices, lower_char,
    chars_of, dec_text, find_char, find_from, is_digit, lemma_dec_text, lemma_find_from,
    parse_unsigned, parse_unsigned_in, push_decimal, slice_vec, string_of,
};

verus! {

/// Whether `prefix` is a prefix length for addresses of the family of `addr`.
pub open spec fn valid_prefix(addr: IpAddress, prefix: u8) -> bool {
    match addr {
        IpAddress::V4(_) => prefix <= 32,
        IpAddress::V6(_) => prefix <= 128,
    }
}

/// An address prefix: a network address and a prefix length that fits its family.
#[derive(Debug, Clone, Copy, PartialEq, Eq)]
pub struct RegistryCidr {
    addr: IpAddress,
    prefix: u8,
}

/// `s` with every `from` replaced by `to` (`str::replace` with one-character patterns).
pub open spec fn replace_char(s: Seq<char>, from: char, to: char) -> Seq<char> {
    s.map_values(|c: char| if c == from { to } else { c })
}

/// What `<address>_<prefix>` names: the text before the first `_` must be an
/// address and the text after it a prefix length (as `u8::from_str` reads
/// it) that fits the address family.
pub open spec fn parse_registry_name(name: Seq<char>) -> Option<(IpAddress, u8)> {
    let i = find_from(name, '_', 0);
    if i >= name.len() {
        None
    } else {
        match (parse_ip(name.take(i)), parse_unsigned(name.skip(i + 1), 255)) {
            (Some(a), Some(p)) => if valid_prefix(a, p as u8) {
                Some((a, p as u8))
            } else {
                None
            },
            _ => None,
        }
    }
}

/// The mask of the first `prefix` bits of an IPv4 address.
pub open spec fn mask_v4(prefix: u8) -> u32 {
    if prefix == 0 {
        0
    } else {
        u32::MAX << ((32 - prefix) as u32)
    }
}

/// The mask of the first `prefix` bits of an IPv6 address.
pub open spec fn mask_v6(prefix: u8) -> u128 {
    if prefix == 0 {
        0
    } else {
        u128::MAX << ((128 - prefix) as u128)
    }
}

/// Whether the prefix `(network, prefix)` covers `addr`: the same family,
/// and the same first `prefix` bits.
pub open spec fn covers(network: IpAddress, prefix: u8, addr: IpAddress) -> bool {
    match (network, addr) {
        (IpAddress::V4(n), IpAddress::V4(a)) => n & mask_v4(prefix) == a & mask_v4(prefix),
        (IpAddress::V6(n), IpAddress::V6(a)) => n & mask_v6(prefix) == a & mask_v6(prefix),
        _ => false,
    }
}

/// The registry file name of a prefix.
pub open spec fn cidr_file_name(addr: IpAddress, prefix: u8) -> Seq<char> {
    ip_text(addr) + seq!['_'] + dec_text(prefix as nat)
}

impl View for RegistryCidr {
    type V = (IpAddress, u8);

    closed spec fn view(&self) -> (IpAddress, u8) {
        (self.addr, self.prefix)
    }
}

impl RegistryCidr {
    /// The prefix's length fits its address family.
    #[verifier::type_invariant]
    closed spec fn well_formed(&self) -> bool {
        valid_prefix(self.addr, self.prefix)
    }

    /// Reads a registry file name such as `172.21.86.192_27`.
    pub fn parse_file_name(name: &str) -> (r: Option<Self>)
        ensures
            match (r, parse_registry_name(name@)) {
                (Some(c), Some(v)) => c@ == v,
                (None, None) => true,
                _ => false,
            },
    {
        let v = chars_of(name);
        Self::parse_registry_chars(&v)
    }

    /// Reads a prefix written in a query, such as `172.21.86.192/27`: a
    /// file name with `/` in place of `_`.
    pub fn parse_query(value: &str) -> (r: Option<Self>)
        ensures
            match (r, parse_registry_name(replace_char(value@, '/', '_'))) {
                (Some(c), Some(v)) => c@ == v,
                (None, None) => true,
                _ => false,
            },
    {
        let v = chars_of(value);
        let mut w: Vec<char> = Vec::new();
        let mut k: usize = 0;
        while k < v.len()
            invariant
                k <= v@.len(),
                w@ == replace_char(v@.take(k as int), '/', '_'),
            decreases v@.len() - k,
        {
            if v[k] == '/' {
                w.push('_');
            } else {
                w.push(v[k]);
            }
            k = k + 1;
            proof {
                assert(replace_char(v@.take(k as int), '/', '_') =~= replace_char(
                    v@.take(k - 1),
                    '/',
                    '_',
                ).push(if v@[k - 1] == '/' { '_' } else { v@[k - 1] }));
            }
        }
        proof {
            assert(v@.take(k as int) =~= v@);
        }
        Self::parse_registry_chars(&w)
    }

    fn parse_registry_chars(name: &[char]) -> (r: Option<Self>)
        ensures
            match (r, parse_registry_name(name@)) {
                (Some(c), Some(v)) => c@ == v,
                (None, None) => true,
                _ => false,
            },
    {
        let i = find_char(name, '_', 0);
        proof {
            lemma_find_from(name@, '_', 0);
        }
        if i >= name.len() {
            return None;
        }
        let left = slice_vec(name, 0, i);
        proof {
            assert(left@ =~= name@.take(i as int));
            assert(name@.subrange(i + 1, name@.len() as int) =~= name@.skip(i + 1));
        }
        let addr = match parse_ip_chars(&left) {
            Some(a) => a,
            None => {
                return None;
            },
        };
        let prefix = match parse_unsigned_in(name, i + 1, name.len(), 255) {
            Some(p) => p as u8,
            None => {
                return None;
            },
        };
        let valid = match addr {
            IpAddress::V4(_) => prefix <= 32,
            IpAddress::V6(_) => prefix <= 128,
        };
        if valid {
            Some(RegistryCidr { addr, prefix })
        } else {
            None
        }
    }

    /// Whether this prefix covers `addr`.
    pub fn contains(&self, addr: IpAddress) -> (r: bool)
        ensures
            r == covers(self@.0, self@.1, addr),
    {
        proof {
            use_type_invariant(self);
        }
        match (self.addr, addr) {
            (IpAddress::V4(network), IpAddress::V4(a)) => {
                let mask: u32 = if self.prefix == 0 {
                    0
                } else {
                    u32::MAX << (32 - self.prefix) as u32
                };
                network & mask == a & mask
            },
            (IpAddress::V6(network), IpAddress::V6(a)) => {
                let mask: u128 = if self.prefix == 0 {
                    0
                } else {
                    u128::MAX << (128 - self.prefix) as u128
                };
                network & mask == a & mask
            },
            _ => false,
        }
    }

    /// The address of the prefix, as written in its name.
    pub fn addr(&self) -> (r: IpAddress)
        ensures
            r == self@.0,
    {
        self.addr
    }

    /// The prefix length.
    pub fn prefix(&self) -> (r: u8)
        ensures
            r == self@.1,
    {
        self.prefix
    }

    /// The registry file name of the prefix.
    pub fn file_name(&self) -> (r: String)
        ensures
            r@ == cidr_file_name(self@.0, self@.1),
    {
        let mut out: Vec<char> = Vec::new();
        push_ip(&mut out, self.addr);
        out.push('_');
        push_decimal(&mut out, self.prefix as u64);
        proof {
            assert(out@ =~= cidr_file_name(self@.0, self@.1));
        }
        string_of(&out)
    }
}

/// A prefix covers the address that it is written with.
pub proof fn lemma_covers_own_address(addr: IpAddress, prefix: u8)
    requires
        valid_prefix(addr, prefix),
    ensures
        covers(addr, prefix, addr),
{
}

/// The registry file name of a prefix reads back as that prefix.
pub proof fn lemma_file_name_round_trip(addr: IpAddress, p: u8)
    requires
        valid_prefix(addr, p),
    ensures
        parse_registry_name(cidr_file_name(addr, p)) == Some((addr, p)),
{
    let v = ip_text(addr);
    let d = dec_text(p as nat);
    let name = cidr_file_name(addr, p);
    lemma_dec_text(p as nat);
    lemma_ip_text_no_underscore(addr);
    assert(name =~= v + seq!['_'] + d);
    lemma_find_from_first(name, '_', v.len() as int);
    assert(name.take(v.len() as int) =~= v);
    assert(name.skip(v.len() as int + 1) =~= d);
    lemma_parse_ip_text(addr);
    assert(d[0] != '+');
    assert(parse_unsigned(d, 255) == Some(p as nat));
}

/// The text of an address holds no `_`.
proof fn lemma_ip_text_no_underscore(a: IpAddress)
    ensures
        forall|k: int| 0 <= k < ip_text(a).len() ==> #[trigger] ip_text(a)[k] != '_',
{
    match a {
        IpAddress::V4(x) => {
            lemma_v4_text_chars(x);
        },
        IpAddress::V6(x) => {
            let g = segments(x);
            let t = v6_text(x);
            if is_v4_mapped(g) {
                let low = ((x as nat) % 0x1_0000_0000) as u32;
                lemma_v4_text_chars(low);
                assert forall|k: int| 0 <= k < t.len() implies #[trigger] t[k] != '_' by {
                    if k >= 7 {
                        assert(t[k] == v4_text(low)[k - 7]);
                    }
                }
            } else {
                let n = longest_zero_run(g, 0);
                if n > 1 {
                    let st = first_run_of(g, 0, n);
                    let jh = join_hex(g.take(st));
                    let jt = join_hex(g.skip(st + n));
                    lemma_join_hex_chars(g.take(st));
                    lemma_join_hex_chars(g.skip(st + n));
                    assert forall|k: int| 0 <= k < t.len() implies #[trigger] t[k] != '_' by {
                        if k < jh.len() {
                            assert(t[k] == jh[k]);
                        } else if k >= jh.len() + 2 {
                            assert(t[k] == jt[k - jh.len() - 2]);
                        }
                    }
                } else {
                    lemma_join_hex_chars(g);
                }
            }
        },
    }
}

/// The dotted quad of an address holds digits and dots only.
proof fn lemma_v4_text_chars(a: u32)
    ensures
        forall|k: int| 0 <= k < v4_text(a).len() ==> is_digit(#[trigger] v4_text(a)[k]) || v4_text(a)[k] == '.',
{
    lemma_dec_text(octet(a, 0));
    lemma_dec_text(octet(a, 1));
    lemma_dec_text(octet(a, 2));
    lemma_dec_text(octet(a, 3));
    let d0 = dec_text(octet(a, 0));
    let d1 = dec_text(octet(a, 1));
    let d2 = dec_text(octet(a, 2));
    let d3 = dec_text(octet(a, 3));
    let v = v4_text(a);
    assert forall|k: int| 0 <= k < v.len() implies is_digit(#[trigger] v[k]) || v[k] == '.' by {
        let e0 = d0.len() as int;
        let e1 = e0 + 1 + d1.len();
        let e2 = e1 + 1 + d2.len();
        if k < e0 {
            assert(v[k] == d0[k]);
        } else if k == e0 || k == e1 || k == e2 {
        } else if k < e1 {
            assert(v[k] == d1[k - e0 - 1]);
        } else if k < e2 {
            assert(v[k] == d2[k - e1 - 1]);
        } else {
            assert(v[k] == d3[k - e2 - 1]);
        }
    }
}

/// The first `c` in a text whose part before `i` holds no `c`, and that has
/// `c` at `i`, is at `i`.
proof fn lemma_find_from_first(s: Seq<char>, c: char, i: int)
    requires
        0 <= i < s.len(),
        s[i] == c,
        forall|k: int| 0 <= k < i ==> s[k] != c,
    ensures
        find_from(s, c, 0) == i,
{
    lemma_find_from_prefix(s, c, 0, i);
}

proof fn lemma_find_from_prefix(s: Seq<char>, c: char, j: int, i: int)
    requires
        0 <= j <= i < s.len(),
        s[i] == c,
        forall|k: int| j <= k < i ==> s[k] != c,
    ensures
        find_from(s, c, j) == i,
    decreases i - j,
{
    if j < i {
        lemma_find_from_prefix(s, c, j + 1, i);
    }
}

/// A number reads the same in a text and its lower case.
proof fn lemma_parse_unsigned_lower(t: Seq<char>, max: nat)
    ensures
        parse_unsigned(ascii_lower(t), max) == parse_unsigned(t, max),
{
    let l = ascii_lower(t);
    if t.len() > 0 {
        assert(l[0] == lower_char(t[0]));
        lemma_lower_slices(t, 1, t.len() as int);
        lemma_all_digits_lower(t.skip(1));
    }
    lemma_all_digits_lower(t);
}

/// A registry prefix name reads the same in lower case.
pub proof fn lemma_parse_registry_name_lower(name: Seq<char>)
    ensures
        parse_registry_name(ascii_lower(name)) == parse_registry_name(name),
{
    lemma_find_from_lower(name, '_', 0);
    let i = find_from(name, '_', 0);
    lemma_find_from(name, '_', 0);
    if i < name.len() {
        lemma_lower_slices(name, i, i);
        lemma_lower_slices(name, i + 1, i + 1);
        lemma_parse_ip_lower(name.take(i));
        lemma_parse_unsigned_lower(name.skip(i + 1), 255);
    }
}

/// Lower case and replacing `/` by `_` can be done in either order.
pub proof fn lemma_replace_lower(s: Seq<char>)
    ensures
        ascii_lower(replace_char(s, '/', '_')) == replace_char(ascii_lower(s), '/', '_'),
{
    assert(ascii_lower(replace_char(s, '/', '_')) =~= replace_char(ascii_lower(s), '/', '_'));
}

} // verus!

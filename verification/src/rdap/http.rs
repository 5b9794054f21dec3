//! How the RDAP service answers a request: what each path segment must be,
//! which registry object it names, and the reply to what the lookup gave.
//!
//! The HTTP routing and the reading of registry files are the caller's; this
//! module decides.
use vstd::prelude::*;
use crate::cidr::{cidr_file_name, covers, mask_v4, mask_v6, valid_prefix};
use crate::ip::{IpAddress, ip_text, parse_ip, parse_ip_chars, push_ip};
use crate::rdap::mapper::{
    autnum, autnum_spec, domain, domain_spec, entity, entity_spec, ip_network, ip_network_spec,
    objects_view,
};
use crate::rdap::bootstrap::{Kind, bootstrap_kind};
use crate::rdap::model::{RdapError, RdapObject, RdapObjectView};
use crate::rdap::url::{absolute_rdap_base_url, base_url_message, base_url_problem, opt_str_view};
use crate::registry::{ObjectRef, Registry, opt_view, strings_view};
use crate::text::{
    all_digits, ascii_lower, ascii_upper, chars_of, dec_text, lower_vec, parse_unsigned,
    parse_unsigned_in, push_decimal, push_str, starts_with, starts_with_str, string_of, upper_vec,
};

verus! {

/// What the RDAP service needs to answer requests.
#[derive(Debug, Clone)]
pub struct RdapState {
    pub registry: Registry,
    pub base_url: Option<String>,
    pub path: String,
}

/// Whether `e` is the RDAP error with status `status` and title `title`,
/// the title repeated as its one line of description.
pub open spec fn is_error(e: RdapError, status: u16, title: Seq<char>) -> bool {
    &&& e.error_code == status
    &&& e.title@ == title
    &&& strings_view(e.description@) == seq![title]
}

/// The RDAP error with status `status` and title `title`.
pub fn error(status: u16, title: &str) -> (r: RdapError)
    ensures
        is_error(r, status, title@),
{
    let description = vec![String::from_str(title)];
    proof {
        assert(strings_view(description@) =~= seq![title@]);
    }
    RdapError { error_code: status, title: String::from_str(title), description }
}

/// The answer to a path that names no RDAP resource.
pub fn not_found() -> (r: RdapError)
    ensures
        is_error(r, 404, "not found"@),
{
    error(404, "not found")
}

/// What a request for a bootstrap file is answered with before the registry
/// is read: the kind of file to build, `404 not found` for a file name that
/// is no bootstrap file, or a 404 that says why when no absolute base URL is
/// configured.
pub fn bootstrap_request(file: &str, base_url: Option<&str>, path: &str) -> (r: Result<Kind, RdapError>)
    ensures
        match bootstrap_kind(file@) {
            None => r matches Err(e) && is_error(e, 404, "not found"@),
            Some(k) => match base_url_problem(opt_str_view(base_url)) {
                Some(p) => r matches Err(e) && is_error(e, 404, base_url_message(p)),
                None => r == Ok::<Kind, RdapError>(k),
            },
        },
{
    let kind = match Kind::from_file(file) {
        Some(k) => k,
        None => {
            return Err(not_found());
        },
    };
    match absolute_rdap_base_url(base_url, path) {
        Ok(_) => Ok(kind),
        Err(p) => Err(error(404, p.message())),
    }
}

/// The digits of an autnum request: the text after a leading `AS` or `as`,
/// else the whole text.
pub open spec fn autnum_digits(v: Seq<char>) -> Seq<char> {
    if starts_with(v, seq!['A', 'S']) || starts_with(v, seq!['a', 's']) {
        v.skip(2)
    } else {
        v
    }
}

/// The `aut-num` object an autnum request names: `AS` and the digits, when
/// there are only ASCII digits (possibly none) after the optional prefix.
pub open spec fn autnum_name_spec(v: Seq<char>) -> Option<Seq<char>> {
    let d = autnum_digits(v);
    if all_digits(d) {
        Some(seq!['A', 'S'] + d)
    } else {
        None
    }
}

/// An autnum request names the same object with or without its `AS` (or
/// `as`) prefix: `AS` and the number.
pub proof fn lemma_autnum_prefix_optional(digits: Seq<char>)
    requires
        all_digits(digits),
    ensures
        autnum_name_spec(digits) == Some(seq!['A', 'S'] + digits),
        autnum_name_spec(seq!['A', 'S'] + digits) == Some(seq!['A', 'S'] + digits),
        autnum_name_spec(seq!['a', 's'] + digits) == Some(seq!['A', 'S'] + digits),
{
    if digits.len() >= 2 {
        assert(crate::text::is_digit(digits[0]));
        assert(digits.take(2) != seq!['A', 'S']);
        assert(digits.take(2) != seq!['a', 's']);
    }
    assert((seq!['A', 'S'] + digits).take(2) =~= seq!['A', 'S']);
    assert((seq!['A', 'S'] + digits).skip(2) =~= digits);
    assert((seq!['a', 's'] + digits).take(2) =~= seq!['a', 's']);
    assert((seq!['a', 's'] + digits).skip(2) =~= digits);
    assert((seq!['a', 's'] + digits).take(2) != seq!['A', 'S']) by {
        assert((seq!['a', 's'] + digits).take(2)[0] == 'a');
    }
}

/// The `aut-num` object that the autnum request `value` names.
pub fn autnum_name(value: &str) -> (r: Option<String>)
    ensures
        opt_view(r) == autnum_name_spec(value@),
{
    let v = chars_of(value);
    let lead: usize = if starts_with_str(&v, "AS") || starts_with_str(&v, "as") {
        2
    } else {
        0
    };
    proof {
        reveal_strlit("AS");
        reveal_strlit("as");
        assert("AS"@ =~= seq!['A', 'S']);
        assert("as"@ =~= seq!['a', 's']);
    }
    let ghost d = autnum_digits(v@);
    assert(d =~= v@.skip(lead as int));
    let mut out: Vec<char> = Vec::new();
    out.push('A');
    out.push('S');
    let mut k = lead;
    while k < v.len()
        invariant
            lead <= k <= v@.len(),
            v@ == value@,
            d == autnum_digits(value@),
            d == v@.skip(lead as int),
            forall|j: int| lead <= j < k ==> crate::text::is_digit(#[trigger] v@[j]),
            out@ == seq!['A', 'S'] + v@.subrange(lead as int, k as int),
        decreases v@.len() - k,
    {
        if !('0' <= v[k] && v[k] <= '9') {
            proof {
                assert(d[k - lead] == v@[k as int]);
                assert(!crate::text::is_digit(d[k - lead]));
            }
            return None;
        }
        out.push(v[k]);
        k = k + 1;
        proof {
            assert(out@ =~= seq!['A', 'S'] + v@.subrange(lead as int, k as int));
        }
    }
    proof {
        assert forall|j: int| 0 <= j < d.len() implies crate::text::is_digit(#[trigger] d[j]) by {
            assert(d[j] == v@[lead + j]);
        }
        assert(v@.subrange(lead as int, k as int) =~= d);
    }
    Some(string_of(&out))
}

/// Whether two dots follow each other somewhere in `s`.
pub open spec fn has_dot_dot(s: Seq<char>) -> bool {
    exists|i: int| 0 <= i && i + 1 < s.len() && s[i] == '.' && #[trigger] s[i + 1] == '.'
}

/// Whether a path segment may not name a registry file: it holds a `/` or `..`.
pub open spec fn unsafe_segment(s: Seq<char>) -> bool {
    s.contains('/') || has_dot_dot(s)
}

/// Whether `value` holds a `/` or `..`.
pub fn unsafe_path(value: &str) -> (r: bool)
    ensures
        r == unsafe_segment(value@),
{
    let v = chars_of(value);
    let mut k: usize = 0;
    while k < v.len()
        invariant
            k <= v@.len(),
            v@ == value@,
            forall|j: int| 0 <= j < k ==> v@[j] != '/',
            forall|j: int| 0 <= j && j + 1 < k ==> !(v@[j] == '.' && #[trigger] v@[j + 1] == '.'),
        decreases v@.len() - k,
    {
        if v[k] == '/' {
            proof {
                assert(v@[k as int] == '/');
            }
            return true;
        }
        if k > 0 && v[k - 1] == '.' && v[k] == '.' {
            proof {
                assert(v@[(k - 1) + 1] == '.');
            }
            return true;
        }
        k = k + 1;
    }
    proof {
        assert forall|j: int| 0 <= j && j + 1 < v@.len() implies !(v@[j] == '.' && #[trigger] v@[
            j + 1] == '.') by {}
        if v@.contains('/') {
            let j = choose|j: int| 0 <= j < v@.len() && v@[j] == '/';
            assert(v@[j] != '/');
        }
    }
    false
}

/// The domain that a domain request names: the request in ASCII lower case,
/// or the error when it holds a `/` or `..`.
pub fn domain_request(name: &str) -> (r: Result<String, RdapError>)
    ensures
        match r {
            Ok(n) => !unsafe_segment(name@) && n@ == ascii_lower(name@),
            Err(e) => unsafe_segment(name@) && is_error(e, 400, "invalid domain"@),
        },
{
    if unsafe_path(name) {
        return Err(error(400, "invalid domain"));
    }
    let v = chars_of(name);
    Ok(string_of(&lower_vec(&v)))
}

/// The handle that an entity request names: the request in ASCII upper
/// case, or the error when it holds a `/` or `..`.
pub fn entity_request(handle: &str) -> (r: Result<String, RdapError>)
    ensures
        match r {
            Ok(n) => !unsafe_segment(handle@) && n@ == ascii_upper(handle@),
            Err(e) => unsafe_segment(handle@) && is_error(e, 400, "invalid entity"@),
        },
{
    if unsafe_path(handle) {
        return Err(error(400, "invalid entity"));
    }
    let v = chars_of(handle);
    Ok(string_of(&upper_vec(&v)))
}

/// The `aut-num` object that an autnum request names, or the error when the
/// request is no AS number.
pub fn autnum_request(asn: &str) -> (r: Result<String, RdapError>)
    ensures
        match r {
            Ok(n) => autnum_name_spec(asn@) == Some(n@),
            Err(e) => autnum_name_spec(asn@) is None && is_error(e, 400, "invalid autnum"@),
        },
{
    match autnum_name(asn) {
        Some(n) => Ok(n),
        None => Err(error(400, "invalid autnum")),
    }
}

/// The address of an IP request, or the error when it is no address.
pub fn ip_request(addr: &str) -> (r: Result<IpAddress, RdapError>)
    ensures
        match r {
            Ok(a) => parse_ip(addr@) == Some(a),
            Err(e) => parse_ip(addr@) is None && is_error(e, 400, "invalid ip address"@),
        },
{
    let v = chars_of(addr);
    match parse_ip_chars(&v) {
        Some(a) => Ok(a),
        None => Err(error(400, "invalid ip address")),
    }
}

/// The network address of `addr` under a prefix of `prefix` bits
/// (`IpNet::new(addr, prefix)` and `network()`): none when the prefix is
/// longer than the address.
pub open spec fn network_of(addr: IpAddress, prefix: u8) -> Option<IpAddress> {
    if !valid_prefix(addr, prefix) {
        None
    } else {
        match addr {
            IpAddress::V4(a) => Some(IpAddress::V4(a & mask_v4(prefix))),
            IpAddress::V6(a) => Some(IpAddress::V6(a & mask_v6(prefix))),
        }
    }
}

/// The network address of `addr` under a prefix of `prefix` bits.
pub fn network_address(addr: IpAddress, prefix: u8) -> (r: Option<IpAddress>)
    ensures
        r == network_of(addr, prefix),
{
    match addr {
        IpAddress::V4(a) => {
            if prefix > 32 {
                return None;
            }
            let m: u32 = if prefix == 0 {
                0
            } else {
                u32::MAX << ((32 - prefix) as u32)
            };
            Some(IpAddress::V4(a & m))
        },
        IpAddress::V6(a) => {
            if prefix > 128 {
                return None;
            }
            let m: u128 = if prefix == 0 {
                0
            } else {
                u128::MAX << ((128 - prefix) as u128)
            };
            Some(IpAddress::V6(a & m))
        },
    }
}

/// A prefix request for any address inside a network names that network:
/// the network that a prefix cuts from an address covers the address, is its
/// own network under the prefix, and is the same for every address that
/// agrees with the first on the prefix's bits.
pub proof fn lemma_network_of(a: IpAddress, b: IpAddress, p: u8)
    requires
        valid_prefix(a, p),
    ensures
        network_of(a, p) matches Some(n) && covers(n, p, a) && network_of(n, p) == Some(n),
        covers(a, p, b) ==> network_of(b, p) == network_of(a, p),
{
    match a {
        IpAddress::V4(x) => {
            let m = mask_v4(p);
            assert((x & m) & m == x & m) by (bit_vector);
        },
        IpAddress::V6(x) => {
            let m = mask_v6(p);
            assert((x & m) & m == x & m) by (bit_vector);
        },
    }
}

/// The registry object a prefix request names.
#[derive(Debug, Clone)]
pub struct PrefixTarget {
    /// `route` or `route6`.
    pub object_type: String,
    /// The network as the registry names it, `<network>_<prefix>`.
    pub object_name: String,
    /// The network as RDAP writes it, `<network>/<prefix>`.
    pub query: String,
}

/// What a prefix request `<addr>/<prefix>` names: the `route` or `route6`
/// object of the network that the prefix cuts from the address, with the
/// network as query; or the title of the error, when the prefix is no `u8`,
/// the address no address, or the prefix longer than the address.
pub open spec fn prefix_request_spec(addr: Seq<char>, prefix: Seq<char>) -> Result<
    (Seq<char>, Seq<char>, Seq<char>),
    Seq<char>,
> {
    match parse_unsigned(prefix, 255) {
        None => Err("invalid prefix"@),
        Some(p) => match parse_ip(addr) {
            None => Err("invalid ip address"@),
            Some(a) => match network_of(a, p as u8) {
                None => Err("invalid prefix"@),
                Some(n) => Ok(
                    (
                        match n {
                            IpAddress::V4(_) => "route"@,
                            IpAddress::V6(_) => "route6"@,
                        },
                        cidr_file_name(n, p as u8),
                        ip_text(n) + seq!['/'] + dec_text(p as nat),
                    ),
                ),
            },
        },
    }
}

/// The registry object that the prefix request `<addr>/<prefix>` names, or
/// the error to answer with.
pub fn ip_prefix_request(addr: &str, prefix: &str) -> (r: Result<PrefixTarget, RdapError>)
    ensures
        match (r, prefix_request_spec(addr@, prefix@)) {
            (Ok(t), Ok(s)) => (t.object_type@, t.object_name@, t.query@) == s,
            (Err(e), Err(title)) => is_error(e, 400, title),
            _ => false,
        },
{
    let pv = chars_of(prefix);
    let p = match parse_unsigned_in(&pv, 0, pv.len(), 255) {
        Some(p) => p as u8,
        None => {
            proof {
                assert(pv@.subrange(0, pv@.len() as int) =~= prefix@);
            }
            return Err(error(400, "invalid prefix"));
        },
    };
    proof {
        assert(pv@.subrange(0, pv@.len() as int) =~= prefix@);
    }
    let ip = match ip_request(addr) {
        Ok(a) => a,
        Err(e) => return Err(e),
    };
    let network = match network_address(ip, p) {
        Some(n) => n,
        None => return Err(error(400, "invalid prefix")),
    };
    let object_type = match network {
        IpAddress::V4(_) => "route",
        IpAddress::V6(_) => "route6",
    };
    let mut name: Vec<char> = Vec::new();
    push_ip(&mut name, network);
    let mut query = name.clone();
    name.push('_');
    push_decimal(&mut name, p as u64);
    query.push('/');
    push_decimal(&mut query, p as u64);
    Ok(
        PrefixTarget {
            object_type: String::from_str(object_type),
            object_name: string_of(&name),
            query: string_of(&query),
        },
    )
}

/// The reply to a lookup of one object: the error when the lookup failed
/// (`Err`) or found nothing (`Ok(None)`), else the object.
pub open spec fn found_one(looked_up: Result<Option<ObjectRef>, ()>) -> Result<ObjectRef, (u16, Seq<char>)> {
    match looked_up {
        Err(_) => Err((500, "lookup failed"@)),
        Ok(None) => Err((404, "object not found"@)),
        Ok(Some(o)) => Ok(o),
    }
}

/// The object of a lookup of one object, or the error to answer with.
pub fn found_object(looked_up: Result<Option<ObjectRef>, ()>) -> (r: Result<ObjectRef, RdapError>)
    ensures
        match (r, found_one(looked_up)) {
            (Ok(a), Ok(b)) => a == b,
            (Err(e), Err((status, title))) => is_error(e, status, title),
            _ => false,
        },
{
    match looked_up {
        Err(_) => Err(error(500, "lookup failed")),
        Ok(None) => Err(error(404, "object not found")),
        Ok(Some(o)) => Ok(o),
    }
}

/// The object type looked up first for an entity request.
pub fn entity_first_type() -> (r: &'static str)
    ensures
        r@ == "person"@,
{
    "person"
}

/// What an entity lookup does next: finish with what it has, or look up
/// the handle as an object of another type.
pub enum EntityStep {
    Done(Result<Option<ObjectRef>, ()>),
    LookUp(&'static str),
}

/// The next step of an entity lookup after the `person` lookup: a failure
/// or a found person ends it; a missing person leads to the `mntner` lookup.
pub fn entity_after_person(found: Result<Option<ObjectRef>, ()>) -> (r: EntityStep)
    ensures
        match found {
            Ok(None) => r matches EntityStep::LookUp(t) && t@ == "mntner"@,
            _ => r == EntityStep::Done(found),
        },
{
    match found {
        Ok(None) => EntityStep::LookUp("mntner"),
        other => EntityStep::Done(other),
    }
}

/// A reply of the RDAP service: an object, or the error with its status.
pub open spec fn reply_is(
    r: Result<RdapObject, RdapError>,
    looked_up: Result<Option<ObjectRef>, ()>,
    object: spec_fn(ObjectRef) -> RdapObjectView,
) -> bool {
    match (r, found_one(looked_up)) {
        (Ok(a), Ok(o)) => a@ == object(o),
        (Err(e), Err((status, title))) => is_error(e, status, title),
        _ => false,
    }
}

impl RdapState {
    /// The service's base URL, when one is set.
    fn base(&self) -> (r: Option<&str>)
        ensures
            crate::rdap::url::opt_str_view(r) == opt_view(self.base_url),
    {
        match &self.base_url {
            Some(b) => Some(b.as_str()),
            None => None,
        }
    }

    /// The reply to the autnum request `asn`, from the lookup of the object
    /// it names.
    pub fn autnum_reply(&self, asn: &str, looked_up: Result<Option<ObjectRef>, ()>) -> (r: Result<
        RdapObject,
        RdapError,
    >)
        ensures
            reply_is(
                r,
                looked_up,
                |o: ObjectRef|
                    autnum_spec(o.object_name@, o.rpsl@, opt_view(self.base_url), self.path@, asn@),
            ),
    {
        match found_object(looked_up) {
            Ok(o) => Ok(autnum(&o, self.base(), self.path.as_str(), asn)),
            Err(e) => Err(e),
        }
    }

    /// The reply to a domain request for `name` (as `domain_request` gave
    /// it), from the lookup of the object it names.
    pub fn domain_reply(&self, name: &str, looked_up: Result<Option<ObjectRef>, ()>) -> (r: Result<
        RdapObject,
        RdapError,
    >)
        ensures
            reply_is(
                r,
                looked_up,
                |o: ObjectRef|
                    domain_spec(o.object_name@, o.rpsl@, opt_view(self.base_url), self.path@, name@),
            ),
    {
        match found_object(looked_up) {
            Ok(o) => Ok(domain(&o, self.base(), self.path.as_str(), name)),
            Err(e) => Err(e),
        }
    }

    /// The reply to an entity request for `handle` (as `entity_request`
    /// gave it), from the lookup of the `person`, else the `mntner` object.
    pub fn entity_reply(&self, handle: &str, looked_up: Result<Option<ObjectRef>, ()>) -> (r: Result<
        RdapObject,
        RdapError,
    >)
        ensures
            reply_is(
                r,
                looked_up,
                |o: ObjectRef|
                    entity_spec(o.object_name@, o.rpsl@, opt_view(self.base_url), self.path@, handle@),
            ),
    {
        match found_object(looked_up) {
            Ok(o) => Ok(entity(&o, self.base(), self.path.as_str(), handle)),
            Err(e) => Err(e),
        }
    }

    /// The reply to a prefix request, from the lookup of the object that
    /// `ip_prefix_request` named.
    pub fn ip_prefix_reply(&self, target: &PrefixTarget, looked_up: Result<Option<ObjectRef>, ()>) -> (r:
        Result<RdapObject, RdapError>)
        ensures
            reply_is(
                r,
                looked_up,
                |o: ObjectRef|
                    ip_network_spec(
                        objects_view(seq![o]),
                        opt_view(self.base_url),
                        self.path@,
                        target.query@,
                    ).unwrap(),
            ),
    {
        match found_object(looked_up) {
            Ok(o) => {
                let objects = vec![o];
                let ghost ov = objects_view(objects@);
                match ip_network(&objects, self.base(), self.path.as_str(), target.query.as_str()) {
                    Some(x) => {
                        proof {
                            assert(objects@ =~= seq![objects@[0]]);
                        }
                        Ok(x)
                    },
                    None => {
                        proof {
                            assert(ov.len() == 1);
                        }
                        Err(not_found())
                    },
                }
            },
            Err(e) => Err(e),
        }
    }

    /// The reply to the IP request `addr`, from the lookup of the objects
    /// that answer it, most specific first: the error when the lookup failed
    /// (`Err`) or found none, else the network.
    pub fn ip_reply(&self, addr: &str, looked_up: Result<Vec<ObjectRef>, ()>) -> (r: Result<
        RdapObject,
        RdapError,
    >)
        ensures
            match looked_up {
                Err(_) => r matches Err(e) && is_error(e, 500, "lookup failed"@),
                Ok(objects) => match ip_network_spec(
                    objects_view(objects@),
                    opt_view(self.base_url),
                    self.path@,
                    addr@,
                ) {
                    None => r matches Err(e) && is_error(e, 404, "object not found"@),
                    Some(v) => r matches Ok(x) && x@ == v,
                },
            },
    {
        match looked_up {
            Err(_) => Err(error(500, "lookup failed")),
            Ok(objects) => match ip_network(&objects, self.base(), self.path.as_str(), addr) {
                Some(x) => Ok(x),
                None => Err(error(404, "object not found")),
            },
        }
    }
}

} // verus!

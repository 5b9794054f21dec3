use whois42d_ng::rdap::bootstrap::Kind;
use whois42d_ng::rdap::http::{EntityStep, bootstrap_request, entity_after_person, entity_first_type};
use std::path::PathBuf;

use whois42d_ng::ip::IpAddress;
use whois42d_ng::rdap::http::{
    RdapState, autnum_name, autnum_request, domain_request, entity_request, error, found_object,
    ip_prefix_request, ip_request, network_address, not_found, unsafe_path,
};
use whois42d_ng::rdap::mapper;
use whois42d_ng::registry::{ObjectRef, Registry};

const AUTNUM: &str = "aut-num:            AS4242423011\n\
as-name:            MORAXYC-AS\n\
descr:              Moraxyc network\n\
admin-c:            MORAXYC-DN42\n\
tech-c:             MORAXYC-DN42\n\
mnt-by:             MORAXYC-MNT\n\
source:             DN42\n";

const DOMAIN: &str = "domain:             moraxyc.dn42\n\
admin-c:            MORAXYC-DN42\n\
nserver:            any.moraxyc.dn42\n\
descr:              one description\n\
source:             DN42\n";

const PERSON: &str = "person:             Moraxyc\n\
nic-hdl:            MORAXYC-DN42\n\
source:             DN42\n";

const ROUTE: &str = "route:              172.21.86.192/27\n\
origin:             AS4242423011\n\
mnt-by:             MORAXYC-MNT\n\
source:             DN42\n";

const ROUTE6: &str = "route6:             fdea:a10b:3d3a::/48\n\
origin:             AS4242423011\n\
source:             DN42\n";

fn state(base_url: Option<&str>, path: &str) -> RdapState {
    RdapState {
        registry: Registry::new(PathBuf::from("registry/data")),
        base_url: base_url.map(str::to_string),
        path: path.to_string(),
    }
}

fn default_state() -> RdapState {
    state(Some("https://rdap.example.dn42"), "/rdap")
}

#[test]
fn serves_autnum_with_and_without_as_prefix() {
    let state = default_state();
    let bare_name = autnum_request("4242423011").expect("bare number is an autnum");
    let prefixed_name = autnum_request("AS4242423011").expect("prefixed number is an autnum");
    assert_eq!(bare_name, "AS4242423011");
    assert_eq!(prefixed_name, "AS4242423011");

    let object = ObjectRef::new("aut-num", &prefixed_name, AUTNUM.to_string());
    let bare = state.autnum_reply("4242423011", Ok(Some(object.clone()))).expect("object found");
    let prefixed = state.autnum_reply("AS4242423011", Ok(Some(object))).expect("object found");

    assert_eq!(bare.handle, "AS4242423011");
    assert_eq!(prefixed.object_class_name, "autnum");
    assert_eq!(prefixed.name.as_deref(), Some("MORAXYC-AS"));
    assert_eq!(prefixed.start_autnum, Some(4242423011));
    assert_eq!(prefixed.end_autnum, Some(4242423011));
    assert_eq!(prefixed.entities[0].object_class_name, "entity");
    assert_eq!(prefixed.links[0].href, "https://rdap.example.dn42/rdap/autnum/AS4242423011");
    assert_eq!(bare.links[0].value, "https://rdap.example.dn42/rdap/autnum/4242423011");
    assert_eq!(bare.links[0].href, "https://rdap.example.dn42/rdap/autnum/AS4242423011");
}

#[test]
fn serves_domain_after_lowercasing() {
    let state = default_state();
    let name = domain_request("MORAXYC.DN42").expect("domain is safe");
    assert_eq!(name, "moraxyc.dn42");
    let object = ObjectRef::new("dns", &name, DOMAIN.to_string());
    let json = state.domain_reply(&name, Ok(Some(object))).expect("object found");

    assert_eq!(json.object_class_name, "domain");
    assert_eq!(json.handle, "moraxyc.dn42");
    assert_eq!(json.ldh_name.as_deref(), Some("moraxyc.dn42"));
    assert_eq!(json.status[0], "active");
    assert_eq!(json.remarks.iter().filter(|r| r.title == "descr").count(), 1);
}

#[test]
fn serves_person_entity() {
    let state = default_state();
    let handle = entity_request("moraxyc-dn42").expect("handle is safe");
    assert_eq!(handle, "MORAXYC-DN42");
    let object = ObjectRef::new("person", &handle, PERSON.to_string());
    let json = state.entity_reply(&handle, Ok(Some(object))).expect("object found");

    assert_eq!(json.object_class_name, "entity");
    assert_eq!(json.handle, "MORAXYC-DN42");
    assert_eq!(json.notices[0].title, "Service Notice");
    assert_eq!(json.vcard_array.as_ref().map(|v| v.full_name.as_str()), Some("Moraxyc"));
}

#[test]
fn serves_ip_network_with_route_remark() {
    let state = default_state();
    let addr = ip_request("172.21.86.193").expect("address parses");
    assert_eq!(addr, IpAddress::V4(0xac15_56c1));
    let object = ObjectRef::new("route", "172.21.86.192_27", ROUTE.to_string());
    let json = state.ip_reply("172.21.86.193", Ok(vec![object])).expect("network found");

    assert_eq!(json.object_class_name, "ip network");
    assert_eq!(json.handle, "172.21.86.192_27");
    assert_eq!(json.start_address.as_deref(), Some("172.21.86.192"));
    assert_eq!(json.end_address.as_deref(), Some("172.21.86.223"));
    assert_eq!(json.ip_version.as_deref(), Some("v4"));
    assert_eq!(json.remarks[0].title, "route");
}

#[test]
fn serves_rdap_ipv6_prefix_network() {
    let state = default_state();
    let target = ip_prefix_request("fdea:a10b:3d3a::", "48").expect("prefix is valid");
    assert_eq!(target.object_type, "route6");
    assert_eq!(target.object_name, "fdea:a10b:3d3a::_48");
    let object = ObjectRef::new("route6", &target.object_name, ROUTE6.to_string());
    let json = state.ip_prefix_reply(&target, Ok(Some(object))).expect("network found");

    assert_eq!(json.object_class_name, "ip network");
    assert_eq!(json.handle, "fdea:a10b:3d3a::_48");
    assert_eq!(json.start_address.as_deref(), Some("fdea:a10b:3d3a::"));
    assert_eq!(json.ip_version.as_deref(), Some("v6"));
    assert_eq!(json.remarks[0].title, "route6");
}

#[test]
fn serves_ip_prefix_after_normalizing_address() {
    let state = default_state();
    let v4 = ip_prefix_request("172.21.86.193", "27").expect("v4 prefix is valid");
    let v6 = ip_prefix_request("FDEA:A10B:3D3A:0:0:0:0:1", "48").expect("v6 prefix is valid");

    assert_eq!(v4.object_name, "172.21.86.192_27");
    assert_eq!(v4.query, "172.21.86.192/27");
    let v4_json = state
        .ip_prefix_reply(&v4, Ok(Some(ObjectRef::new("route", &v4.object_name, ROUTE.to_string()))))
        .expect("network found");
    assert_eq!(v4_json.handle, "172.21.86.192_27");
    assert_eq!(v4_json.links[0].href, "https://rdap.example.dn42/rdap/ip/172.21.86.192/27");

    assert_eq!(v6.object_name, "fdea:a10b:3d3a::_48");
    let v6_json = state
        .ip_prefix_reply(&v6, Ok(Some(ObjectRef::new("route6", &v6.object_name, ROUTE6.to_string()))))
        .expect("network found");
    assert_eq!(v6_json.handle, "fdea:a10b:3d3a::_48");
    assert_eq!(v6_json.links[0].href, "https://rdap.example.dn42/rdap/ip/fdea:a10b:3d3a::/48");
}

#[test]
fn invalid_ip_prefix_lengths_return_rdap_error() {
    let v4 = ip_prefix_request("172.21.86.192", "33").expect_err("prefix too long");
    let v6 = ip_prefix_request("fdea:a10b:3d3a::", "129").expect_err("prefix too long");

    assert_eq!(v4.error_code, 400);
    assert_eq!(v4.title, "invalid prefix");
    assert_eq!(v6.error_code, 400);
    assert_eq!(v6.title, "invalid prefix");
}

#[test]
fn invalid_prefix_and_address_texts_return_rdap_errors() {
    let e = ip_prefix_request("172.21.86.192", "x").expect_err("prefix is no number");
    assert_eq!((e.error_code, e.title.as_str()), (400, "invalid prefix"));
    let e = ip_prefix_request("172.21.86.192", "256").expect_err("prefix is no u8");
    assert_eq!((e.error_code, e.title.as_str()), (400, "invalid prefix"));
    let e = ip_prefix_request("not-an-ip", "x").expect_err("prefix is checked first");
    assert_eq!(e.title, "invalid prefix");
    let e = ip_prefix_request("not-an-ip", "24").expect_err("address is no address");
    assert_eq!((e.error_code, e.title.as_str()), (400, "invalid ip address"));
    let e = ip_request("172.21.86").expect_err("address is no address");
    assert_eq!((e.error_code, e.title.as_str()), (400, "invalid ip address"));
}

#[test]
fn invalid_autnum_returns_rdap_error() {
    let e = autnum_request("not-an-asn").expect_err("not an autnum");
    assert_eq!(e.error_code, 400);
    assert_eq!(e.title, "invalid autnum");
    assert_eq!(e.description, vec!["invalid autnum".to_string()]);
}

#[test]
fn missing_object_returns_rdap_error() {
    let state = default_state();
    let e = state.autnum_reply("4242423999", Ok(None)).expect_err("nothing found");
    assert_eq!(e.error_code, 404);
    assert_eq!(e.title, "object not found");
}

#[test]
fn unmatched_rdap_prefix_paths_return_rdap_error() {
    let e = not_found();
    assert_eq!(e.error_code, 404);
    assert_eq!(e.title, "not found");
}

#[test]
fn lookup_io_error_returns_rdap_500() {
    let state = default_state();
    let e = state.autnum_reply("4242423011", Err(())).expect_err("lookup failed");
    assert_eq!(e.error_code, 500);
    assert_eq!(e.title, "lookup failed");
    let e = state.ip_reply("172.21.86.193", Err(())).expect_err("lookup failed");
    assert_eq!(e.error_code, 500);
}

#[test]
fn empty_ip_lookup_returns_rdap_404() {
    let e = default_state().ip_reply("10.0.0.1", Ok(Vec::new())).expect_err("nothing found");
    assert_eq!((e.error_code, e.title.as_str()), (404, "object not found"));
}

#[test]
fn default_rdap_response_has_self_links() {
    let state = state(None, "/");
    let name = domain_request("MORAXYC.DN42").unwrap();
    let object = ObjectRef::new("dns", &name, DOMAIN.to_string());
    let json = state.domain_reply(&name, Ok(Some(object))).expect("object found");

    assert_eq!(json.links[0].href, "/domain/moraxyc.dn42");
    assert_eq!(json.entities[0].links[0].href, "/entity/MORAXYC-DN42");
}

#[test]
fn path_traversal_is_refused() {
    assert!(unsafe_path("../secret"));
    assert!(unsafe_path("a/b"));
    assert!(unsafe_path("a..b"));
    assert!(!unsafe_path("a.b.c"));
    assert!(!unsafe_path(""));
    let e = domain_request("../secret").expect_err("traversal refused");
    assert_eq!((e.error_code, e.title.as_str()), (400, "invalid domain"));
    let e = entity_request("x/y").expect_err("traversal refused");
    assert_eq!((e.error_code, e.title.as_str()), (400, "invalid entity"));
}

#[test]
fn autnum_names() {
    assert_eq!(autnum_name("as64512").as_deref(), Some("AS64512"));
    assert_eq!(autnum_name("AS").as_deref(), Some("AS"));
    assert_eq!(autnum_name("").as_deref(), Some("AS"));
    assert_eq!(autnum_name("aS1"), None);
    assert_eq!(autnum_name("AS1a"), None);
}

#[test]
fn network_addresses() {
    assert_eq!(network_address(IpAddress::V4(0xac15_56c1), 27), Some(IpAddress::V4(0xac15_56c0)));
    assert_eq!(network_address(IpAddress::V4(0xffff_ffff), 0), Some(IpAddress::V4(0)));
    assert_eq!(network_address(IpAddress::V4(0xffff_ffff), 32), Some(IpAddress::V4(0xffff_ffff)));
    assert_eq!(network_address(IpAddress::V4(1), 33), None);
    assert_eq!(network_address(IpAddress::V6(u128::MAX), 64), Some(IpAddress::V6(u128::MAX << 64)));
    assert_eq!(network_address(IpAddress::V6(1), 129), None);
}

#[test]
fn error_bodies() {
    let e = error(418, "teapot");
    assert_eq!(e.error_code, 418);
    assert_eq!(e.title, "teapot");
    assert_eq!(e.description, vec!["teapot".to_string()]);
    let e = found_object(Ok(None)).expect_err("nothing found");
    assert_eq!(e.error_code, 404);
}

#[test]
fn ip_network_of_several_objects_remarks_each() {
    let objects = vec![
        ObjectRef::new("route", "172.21.86.192_27", ROUTE.to_string()),
        ObjectRef::new("inetnum", "172.21.86.0_24", "inetnum: 172.21.86.0 - 172.21.86.255\nremarks: r\n".to_string()),
    ];
    let json = mapper::ip_network(&objects, None, "/rdap", "172.21.86.193").expect("network");
    let titles: Vec<&str> = json.remarks.iter().map(|r| r.title.as_str()).collect();
    assert_eq!(titles, vec!["route", "inetnum", "remarks"]);
    assert_eq!(json.links[0].href, "/rdap/ip/172.21.86.193");
    assert!(mapper::ip_network(&[], None, "/rdap", "x").is_none());
}

#[test]
fn addresses_inside_a_network_name_the_same_prefix_object() {
    for addr in ["172.21.86.192", "172.21.86.200", "172.21.86.223"] {
        let target = ip_prefix_request(addr, "27").expect("prefix is valid");
        assert_eq!(target.object_name, "172.21.86.192_27");
        assert_eq!(target.object_type, "route");
        let again = ip_prefix_request("172.21.86.192", "27").expect("prefix is valid");
        assert_eq!(again.object_name, target.object_name);
    }
    let outside = ip_prefix_request("172.21.86.224", "27").expect("prefix is valid");
    assert_eq!(outside.object_name, "172.21.86.224_27");
}

#[test]
fn entity_lookup_tries_person_then_mntner() {
    assert_eq!(entity_first_type(), "person");
    assert!(matches!(entity_after_person(Ok(None)), EntityStep::LookUp("mntner")));
    assert!(matches!(entity_after_person(Err(())), EntityStep::Done(Err(()))));
    let person = ObjectRef::new("person", "MORAXYC-DN42", PERSON.to_string());
    assert!(matches!(entity_after_person(Ok(Some(person))), EntityStep::Done(Ok(Some(_)))));
}

#[test]
fn bootstrap_requests_need_a_known_file_and_an_absolute_base_url() {
    let ok = bootstrap_request("asn.json", Some("https://rdap.example/rdap"), "/rdap");
    assert_eq!(ok.ok(), Some(Kind::Asn));
    assert_eq!(
        bootstrap_request("ipv6.json", Some("http://h"), "/").ok(),
        Some(Kind::Ipv6)
    );

    let unknown = bootstrap_request("foo.json", Some("https://rdap.example"), "/rdap").unwrap_err();
    assert_eq!(unknown.error_code, 404);
    assert_eq!(unknown.title, "not found");

    let missing = bootstrap_request("dns.json", None, "/rdap").unwrap_err();
    assert_eq!(missing.error_code, 404);
    assert_eq!(missing.title, "bootstrap registry requires an absolute --rdap-base-url");
    let empty = bootstrap_request("dns.json", Some(""), "/rdap").unwrap_err();
    assert_eq!(empty.title, "bootstrap registry requires an absolute --rdap-base-url");

    let relative = bootstrap_request("ipv4.json", Some("/rdap"), "/rdap").unwrap_err();
    assert_eq!(relative.error_code, 404);
    assert_eq!(relative.title, "--rdap-base-url must be an absolute http(s) URL");
    assert_eq!(relative.description, vec![relative.title.clone()]);
}

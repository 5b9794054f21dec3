use whois42d_ng::rdap::bootstrap::{Kind, build, entries, rfc3339_utc, service_base_url};
use whois42d_ng::rdap::url::{
    BaseUrlError, absolute_rdap_base_url, is_absolute_http_url, path_prefix, rdap_base_url,
};

fn names(v: &[&str]) -> Vec<String> {
    v.iter().map(|s| s.to_string()).collect()
}

#[test]
fn bootstrap_files_by_name() {
    assert_eq!(Kind::from_file("asn.json"), Some(Kind::Asn));
    assert_eq!(Kind::from_file("dns.json"), Some(Kind::Dns));
    assert_eq!(Kind::from_file("ipv4.json"), Some(Kind::Ipv4));
    assert_eq!(Kind::from_file("ipv6.json"), Some(Kind::Ipv6));
    assert_eq!(Kind::from_file("asn"), None);
    assert_eq!(Kind::Ipv4.object_types(), vec!["inetnum", "route"]);
    assert_eq!(Kind::Ipv6.object_types(), vec!["inet6num", "route6"]);
    assert_eq!(Kind::Asn.object_types(), vec!["aut-num"]);
    assert_eq!(Kind::Dns.object_types(), vec!["dns"]);
}

#[test]
fn asn_entries_are_sorted_unique_numbers() {
    let list = entries(Kind::Asn, &names(&["AS4242423011", "as4242420000", "AS", "ASx1", "AS4242423011", "AB1"]));
    assert_eq!(list, vec!["4242420000", "4242423011"]);
}

#[test]
fn dns_entries_are_top_level_labels() {
    let list = entries(Kind::Dns, &names(&["moraxyc.dn42", "b.dn42", "x.neo", "trailing."]));
    assert_eq!(list, vec!["dn42", "neo"]);
}

#[test]
fn ip_entries_keep_their_family() {
    let list = entries(Kind::Ipv4, &names(&["172.21.86.192_27", "fdea:a10b:3d3a::_48", "172.20.0.0_14", "junk"]));
    assert_eq!(list, vec!["172.20.0.0/14", "172.21.86.192/27"]);
    let list = entries(Kind::Ipv6, &names(&["172.21.86.192_27", "fdea:a10b:3d3a::_48"]));
    assert_eq!(list, vec!["fdea:a10b:3d3a::/48"]);
}

#[test]
fn bootstrap_file_has_one_service() {
    let file = build(Kind::Asn, &names(&["AS1", "AS2"]), Some("https://rdap.example.dn42/"), "/rdap", 0);
    assert_eq!(file.version(), "1.0");
    assert_eq!(file.publication(), "1970-01-01T00:00:00Z");
    assert_eq!(file.services().len(), 1);
    assert_eq!(file.services()[0].0, vec!["1", "2"]);
    assert_eq!(file.services()[0].1, vec!["https://rdap.example.dn42/rdap/"]);
}

#[test]
fn timestamps_are_rfc3339_utc() {
    assert_eq!(rfc3339_utc(0), "1970-01-01T00:00:00Z");
    assert_eq!(rfc3339_utc(951782400), "2000-02-29T00:00:00Z");
    assert_eq!(rfc3339_utc(1_700_000_000), "2023-11-14T22:13:20Z");
    assert_eq!(rfc3339_utc(253402300799), "9999-12-31T23:59:59Z");
}

#[test]
fn service_urls() {
    assert_eq!(service_base_url(None, "/rdap"), "/rdap/");
    assert_eq!(service_base_url(Some("https://x//"), "/"), "https://x/");
    assert_eq!(service_base_url(Some("https://x"), "/rdap/"), "https://x/rdap/");
}

#[test]
fn base_urls() {
    assert_eq!(path_prefix("/"), Vec::<char>::new());
    assert_eq!(path_prefix("/rdap//").iter().collect::<String>(), "/rdap");
    assert_eq!(rdap_base_url(None, "/rdap"), "/rdap");
    assert_eq!(rdap_base_url(Some(""), "/rdap"), "/rdap");
    assert_eq!(rdap_base_url(Some("https://x/"), "/rdap"), "https://x/rdap");
    assert_eq!(rdap_base_url(Some("https://x/rdap"), "/rdap"), "https://x/rdap");
    assert_eq!(rdap_base_url(Some("https://x"), "/"), "https://x");
}

#[test]
fn absolute_base_urls() {
    assert_eq!(absolute_rdap_base_url(None, "/rdap"), Err(BaseUrlError::Missing));
    assert_eq!(absolute_rdap_base_url(Some(""), "/rdap"), Err(BaseUrlError::Missing));
    assert_eq!(absolute_rdap_base_url(Some("/rdap"), "/rdap"), Err(BaseUrlError::NotAbsolute));
    assert_eq!(absolute_rdap_base_url(Some("https://x/?q"), "/rdap"), Err(BaseUrlError::NotAbsolute));
    assert_eq!(absolute_rdap_base_url(Some("https://x"), "/rdap"), Ok("https://x/rdap".to_string()));
    assert!(is_absolute_http_url("http://h"));
    assert!(!is_absolute_http_url("http:///h"));
    assert!(!is_absolute_http_url("ftp://h"));
    assert_eq!(
        BaseUrlError::Missing.message(),
        "bootstrap registry requires an absolute --rdap-base-url"
    );
    assert_eq!(BaseUrlError::NotAbsolute.message(), "--rdap-base-url must be an absolute http(s) URL");
}

#[test]
fn later_times_sort_later_as_text() {
    let times: [u64; 9] = [
        0,
        59,
        3599,
        86399,
        86400,
        951782399,
        951782400,
        1_700_000_000,
        253402300799,
    ];
    for pair in times.windows(2) {
        let a = rfc3339_utc(pair[0]);
        let b = rfc3339_utc(pair[1]);
        assert!(a < b, "{a} should sort before {b}");
    }
    assert_eq!(rfc3339_utc(86399), "1970-01-01T23:59:59Z");
    assert_eq!(rfc3339_utc(86400), "1970-01-02T00:00:00Z");
    assert_eq!(rfc3339_utc(951868800), "2000-03-01T00:00:00Z");
    assert_eq!(rfc3339_utc(4107542400), "2100-03-01T00:00:00Z");
}

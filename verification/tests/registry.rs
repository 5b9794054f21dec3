use std::path::PathBuf;

use whois42d_ng::ip::IpAddress;
use whois42d_ng::order::sort_unique;
use whois42d_ng::registry::{
    ObjectRef, Query, QueryPlan, Registry, files_to_read, ip_lookup_files, lookup_directories,
    normalized_object_name, prefix_directories, type_allowed, unsafe_path_segment,
};
use whois42d_ng::response::{not_found, server_info};

fn strings(v: &[&str]) -> Vec<String> {
    v.iter().map(|s| s.to_string()).collect()
}

fn pairs(v: &[(&str, &str)]) -> Vec<(String, String)> {
    v.iter().map(|(a, b)| (a.to_string(), b.to_string())).collect()
}

fn lookup(input: &str) -> Query {
    match Registry::plan_query(input) {
        QueryPlan::Lookup(q) => q,
        QueryPlan::Reply(r) => panic!("unexpected reply {r}"),
    }
}

fn reply(input: &str) -> String {
    match Registry::plan_query(input) {
        QueryPlan::Reply(r) => r,
        QueryPlan::Lookup(q) => panic!("unexpected lookup {q:?}"),
    }
}

#[test]
fn renders_unsupported_template_query_reply() {
    assert_eq!(
        reply("-t person"),
        "% This is the dn42 whois query service.\n\n% template queries are unsupported for person\n"
    );
}

#[test]
fn renders_invalid_query_reply() {
    assert_eq!(
        reply("-x nope"),
        "% This is the dn42 whois query service.\n\n% error: invalid query\n\n"
    );
}

#[test]
fn renders_server_info_replies() {
    assert_eq!(reply("-q version"), "% This is the dn42 whois query service.\n\n% whois42d v1\n");
    assert_eq!(reply("-q sources"), "% This is the dn42 whois query service.\n\nDN42:3:N:0-0\n");
    assert_eq!(server_info("nope"), "% unknown option nope\n");
    assert!(server_info("types").starts_with("aut-num\ndns\n"));
    assert!(server_info("types").ends_with("as-block\n"));
    assert_eq!(not_found(), "% 404\n");
}

#[test]
fn object_queries_name_candidate_files() {
    let query = lookup("AS4242423011");
    assert!(lookup_directories(&query).is_empty());
    assert_eq!(
        files_to_read(&query, &[]),
        pairs(&[("aut-num", "AS4242423011"), ("as-set", "AS4242423011")])
    );
    let query = lookup("moraxyc.DN42");
    assert_eq!(files_to_read(&query, &[]), pairs(&[("dns", "moraxyc.dn42")]));
    let query = lookup("moraxyc-dn42");
    assert_eq!(files_to_read(&query, &[]), pairs(&[("person", "MORAXYC-DN42")]));
}

#[test]
fn type_filter_limits_candidate_files() {
    let query = lookup("-T person AS4242423011");
    assert!(files_to_read(&query, &[]).is_empty());
    let query = lookup("-T as-set AS4242423011");
    assert_eq!(files_to_read(&query, &[]), pairs(&[("as-set", "AS4242423011")]));
    assert!(type_allowed(&[], "route"));
    assert!(!type_allowed(&strings(&["person"]), "route"));
}

#[test]
fn address_queries_match_prefixes_longest_first() {
    let query = lookup("172.21.86.193");
    assert_eq!(lookup_directories(&query), vec!["inetnum", "route"]);
    let listings = vec![
        ("inetnum".to_string(), strings(&["172.21.86.0_24", "10.0.0.0_8"])),
        ("route".to_string(), strings(&["172.20.0.0_14", "172.21.86.192_27", "junk"])),
    ];
    assert_eq!(
        files_to_read(&query, &listings),
        pairs(&[
            ("route", "172.21.86.192_27"),
            ("inetnum", "172.21.86.0_24"),
            ("route", "172.20.0.0_14"),
        ])
    );
}

#[test]
fn prefix_queries_match_prefixes_that_cover_the_network() {
    let query = lookup("172.21.86.192/27");
    let listings = vec![("route".to_string(), strings(&["172.21.86.192_27", "172.21.87.0_24"]))];
    assert_eq!(files_to_read(&query, &listings), pairs(&[("route", "172.21.86.192_27")]));
}

#[test]
fn ipv6_queries_use_ipv6_directories() {
    let query = lookup("fdea:a10b:3d3a::1");
    assert_eq!(lookup_directories(&query), vec!["inet6num", "route6"]);
    let listings = vec![("route6".to_string(), strings(&["fdea:a10b:3d3a::_48", "fd00::_8"]))];
    assert_eq!(
        files_to_read(&query, &listings),
        pairs(&[("route6", "fdea:a10b:3d3a::_48"), ("route6", "fd00::_8")])
    );
    assert_eq!(prefix_directories(IpAddress::V6(1)), ("inet6num", "route6"));
    assert_eq!(prefix_directories(IpAddress::V4(1)), ("inetnum", "route"));
}

#[test]
fn ip_lookup_orders_by_prefix_length() {
    let listings = vec![
        ("inetnum".to_string(), strings(&["172.21.86.0_24"])),
        ("route".to_string(), strings(&["172.21.86.192_27", "172.21.86.0_24"])),
    ];
    assert_eq!(
        ip_lookup_files(IpAddress::V4(0xac15_56c1), &listings),
        pairs(&[
            ("route", "172.21.86.192_27"),
            ("inetnum", "172.21.86.0_24"),
            ("route", "172.21.86.0_24"),
        ])
    );
}

#[test]
fn refuses_path_traversal_objects() {
    let query = lookup("../secret");
    assert!(files_to_read(&query, &[]).is_empty());
    assert!(unsafe_path_segment(&"../secret".chars().collect::<Vec<char>>()));
    assert!(!unsafe_path_segment(&"a/b".chars().collect::<Vec<char>>()));
    assert!(unsafe_path_segment(&"a/../b".chars().collect::<Vec<char>>()));
    assert!(unsafe_path_segment(&"/etc".chars().collect::<Vec<char>>()));
    assert!(!unsafe_path_segment(&"".chars().collect::<Vec<char>>()));
    assert!(!unsafe_path_segment(&"a/./b".chars().collect::<Vec<char>>()));
    assert!(unsafe_path_segment(&".".chars().collect::<Vec<char>>()));
    assert!(!unsafe_path_segment(&"a.b".chars().collect::<Vec<char>>()));
}

#[test]
fn names_are_normalized_per_type() {
    assert_eq!(normalized_object_name("dns", "MoraXyc.DN42").iter().collect::<String>(), "moraxyc.dn42");
    assert_eq!(normalized_object_name("person", "moraxyc-dn42").iter().collect::<String>(), "MORAXYC-DN42");
}

#[test]
fn renders_found_objects_and_404() {
    let reads = vec![
        ("aut-num".to_string(), "AS1".to_string(), Some("aut-num: AS1".to_string())),
        ("as-set".to_string(), "AS1".to_string(), None),
    ];
    assert_eq!(
        Registry::render_response(&reads),
        "% This is the dn42 whois query service.\n\n% Information related to 'aut-num/AS1':\naut-num: AS1\n\n\n"
    );
    let reads = vec![("as-set".to_string(), "AS9".to_string(), None)];
    assert_eq!(
        Registry::render_response(&reads),
        "% This is the dn42 whois query service.\n\n% 404\n\n"
    );
    assert_eq!(
        Registry::render_response(&[]),
        "% This is the dn42 whois query service.\n\n% 404\n\n"
    );
}

#[test]
fn registry_keeps_its_data_path() {
    let registry = Registry::new(PathBuf::from("/srv/registry/data"));
    assert_eq!(registry.data_path(), &PathBuf::from("/srv/registry/data"));
    let copy = registry.clone();
    assert_eq!(copy.data_path(), registry.data_path());
}

#[test]
fn object_ref_reads_its_attributes() {
    let object = ObjectRef::new("aut-num", "AS4242423011", "aut-num: AS4242423011\nas-name: MORAXYC-AS\n".to_string());
    assert_eq!(object.object_type, "aut-num");
    assert_eq!(object.object_name, "AS4242423011");
    assert_eq!(object.rpsl.get("as-name"), Some("MORAXYC-AS"));
}

#[test]
fn sort_unique_sorts_and_drops_repeats() {
    assert_eq!(sort_unique(strings(&["b", "a", "b", "", "a"])), strings(&["", "a", "b"]));
    assert!(sort_unique(Vec::new()).is_empty());
    let once = sort_unique(strings(&["z", "y", "y"]));
    assert_eq!(sort_unique(once.clone()), once);
}

#[test]
fn telephony_falls_back_to_longest_registered_prefix() {
    let query = lookup("+04243011");
    assert_eq!(lookup_directories(&query), vec!["telephony"]);
    let listed = vec![("telephony".to_string(), strings(&["+04", "+0424301", "+0424", "+05"]))];
    assert_eq!(files_to_read(&query, &listed), pairs(&[("telephony", "+0424301")]));
    let exact = vec![("telephony".to_string(), strings(&["+0424", "+04243011"]))];
    assert_eq!(files_to_read(&query, &exact), pairs(&[("telephony", "+04243011")]));
    let unrelated = vec![("telephony".to_string(), strings(&["+05", "+042430110"]))];
    assert_eq!(files_to_read(&query, &unrelated), pairs(&[("telephony", "+04243011")]));
    assert_eq!(files_to_read(&query, &[]), pairs(&[("telephony", "+04243011")]));
    let filtered = lookup("-T person +04243011");
    assert!(lookup_directories(&filtered).is_empty());
    assert!(files_to_read(&filtered, &listed).is_empty());
}

#[test]
fn letter_case_does_not_change_the_files() {
    let listings = vec![
        ("route6".to_string(), strings(&["fdea:a10b:3d3a::_48"])),
        ("telephony".to_string(), strings(&["+0424"])),
    ];
    for (a, b) in [
        ("moraxyc.dn42", "MORAXYC.DN42"),
        ("as4242423011", "AS4242423011"),
        ("fdea:a10b:3d3a::1", "FDEA:A10B:3D3A::1"),
        ("+04243011", "+04243011"),
    ] {
        let qa = lookup(a);
        let qb = lookup(b);
        assert_eq!(lookup_directories(&qa), lookup_directories(&qb));
        assert_eq!(files_to_read(&qa, &listings), files_to_read(&qb, &listings));
    }
}

#[test]
fn answers_pair_each_file_with_what_was_read() {
    let input = "AS4242423011";
    let query = lookup(input);
    let files = files_to_read(&query, &[]);
    assert_eq!(files[0], ("aut-num".to_string(), "AS4242423011".to_string()));
    let mut contents: Vec<Option<String>> = vec![None; files.len()];
    contents[0] = Some("aut-num: AS4242423011\nas-name: MORAXYC-AS".to_string());
    assert_eq!(
        Registry::answer_query(input, &[], &contents),
        "% This is the dn42 whois query service.\n\n% Information related to 'aut-num/AS4242423011':\naut-num: AS4242423011\nas-name: MORAXYC-AS\n\n\n"
    );
    assert_eq!(
        Registry::answer_query(input, &[], &[]),
        "% This is the dn42 whois query service.\n\n% 404\n\n"
    );
    assert_eq!(
        Registry::answer_query("-q version", &[], &contents),
        "% This is the dn42 whois query service.\n\n% whois42d v1\n"
    );
}

#[test]
fn answers_never_name_paths_outside_the_registry() {
    for input in ["../../etc/passwd", "-T person ../x", "/etc/passwd", "a/../../b"] {
        let query = match Registry::plan_query(input) {
            QueryPlan::Lookup(q) => q,
            QueryPlan::Reply(_) => continue,
        };
        let files = files_to_read(&query, &[]);
        for (t, n) in &files {
            assert!(!unsafe_path_segment(&t.chars().collect::<Vec<char>>()));
            assert!(!unsafe_path_segment(&n.chars().collect::<Vec<char>>()));
        }
        let contents: Vec<Option<String>> = files.iter().map(|_| Some("x".to_string())).collect();
        let answer = Registry::answer_query(input, &[], &contents);
        assert!(!answer.contains(".."));
    }
}

#[test]
fn letter_case_does_not_change_the_reply() {
    let listings = vec![
        ("route6".to_string(), strings(&["fdea:a10b:3d3a::_48"])),
        ("telephony".to_string(), strings(&["+0424"])),
    ];
    for o in ["moraxyc.dn42", "As4242423011", "fdea:a10b:3d3a::1", "+04243011", "-q", "-x", ""] {
        let files = files_to_read(&lookup_or_empty(o), &listings);
        let contents: Vec<Option<String>> =
            files.iter().map(|(t, n)| Some(format!("{t}: {n}\n"))).collect();
        let answer = Registry::answer_query(o, &listings, &contents);
        assert_eq!(Registry::answer_query(&o.to_ascii_uppercase(), &listings, &contents), answer);
        assert_eq!(Registry::answer_query(&o.to_ascii_lowercase(), &listings, &contents), answer);
    }
    assert_ne!(
        Registry::answer_query("-t x", &[], &[]),
        Registry::answer_query("-T X", &[], &[])
    );
}

fn lookup_or_empty(input: &str) -> Query {
    match Registry::plan_query(input) {
        QueryPlan::Lookup(q) => q,
        QueryPlan::Reply(_) => Query {
            server_info: None,
            type_filter: Vec::new(),
            type_schema: None,
            objects: Vec::new(),
        },
    }
}

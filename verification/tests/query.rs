use whois42d_ng::registry::Query;

#[test]
fn parses_server_info_query() {
    let query = Query::parse("-q version").expect("query should parse");

    assert_eq!(query.server_info.as_deref(), Some("version"));
    assert!(query.objects.is_empty());
}

#[test]
fn parses_type_filter_and_objects() {
    let query =
        Query::parse("-T aut-num,person AS4242423011 MORAXYC-DN42").expect("query should parse");

    assert_eq!(query.type_filter, vec!["aut-num", "person"]);
    assert_eq!(query.objects, vec!["AS4242423011", "MORAXYC-DN42"]);
}

#[test]
fn option_without_value_is_an_error() {
    assert_eq!(Query::parse("-q"), Err("missing value for -q".to_string()));
}

#[test]
fn unknown_option_is_an_error() {
    assert_eq!(Query::parse("-x nope"), Err("unsupported option -x".to_string()));
}

#[test]
fn type_filter_drops_empty_parts_and_options_stop_at_first_object() {
    let query = Query::parse("-T ,route,, -t person 172.21.86.193 -q x").expect("query should parse");
    assert_eq!(query.type_filter, vec!["route"]);
    assert_eq!(query.type_schema.as_deref(), Some("person"));
    assert_eq!(query.objects, vec!["172.21.86.193", "-q", "x"]);
}

#[test]
fn later_option_replaces_earlier_one() {
    let query = Query::parse("-q a -q b").expect("query should parse");
    assert_eq!(query.server_info.as_deref(), Some("b"));
}

#[test]
fn empty_query_has_nothing() {
    let query = Query::parse(" \t ").expect("query should parse");
    assert!(query.objects.is_empty());
    assert!(query.type_filter.is_empty());
    assert!(query.server_info.is_none());
    assert!(query.type_schema.is_none());
}

use whois42d_ng::rpsl::RpslObject;

#[test]
fn parses_fields_comments_duplicates_and_continuations() {
    let object = RpslObject::parse(
        r#"% comment
person: MORAXYC-DN42
descr: first
  second
+ third
descr: another
bad line
"#,
    );

    assert_eq!(object.get("PERSON"), Some("MORAXYC-DN42"));
    assert_eq!(object.get("descr"), Some("first\nsecond\nthird"));
    assert_eq!(
        object.get_all("DeScR"),
        vec!["first\nsecond\nthird", "another"]
    );
    assert_eq!(object.fields[0].0, "person");
}

#[test]
fn missing_key_gives_nothing() {
    let object = RpslObject::parse("aut-num: AS1\n");
    assert_eq!(object.get("as-name"), None);
    assert!(object.get_all("as-name").is_empty());
}

#[test]
fn empty_text_has_no_fields() {
    assert!(RpslObject::parse("").fields.is_empty());
}

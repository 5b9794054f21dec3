use whois42d_ng::socket_activation::{listener_fds_by_name, split_listener_fds_by_role};

#[test]
fn treats_non_rdap_activation_fds_as_whois() {
    let activation = vec![
        (Some("whois42d-ng.socket".to_string()), vec![3, 4]),
        (Some("rdap".to_string()), vec![5, 6]),
        (None, vec![7]),
    ];

    let (mut whois_fds, rdap_fds) = split_listener_fds_by_role(activation);
    whois_fds.sort_unstable();

    assert_eq!(whois_fds, vec![3, 4, 7]);
    assert_eq!(rdap_fds, vec![5, 6]);
}

#[test]
fn no_activation_gives_no_fds() {
    assert!(listener_fds_by_name(&[], "").is_empty());
    let (whois, rdap) = split_listener_fds_by_role(Vec::new());
    assert!(whois.is_empty());
    assert!(rdap.is_empty());
}

fn group<'a>(groups: &'a [(Option<String>, Vec<i32>)], name: Option<&str>) -> &'a Vec<i32> {
    &groups
        .iter()
        .find(|g| g.0.as_deref() == name)
        .expect("group should exist")
        .1
}

#[test]
fn descriptors_are_grouped_by_their_names() {
    let groups = listener_fds_by_name(&[3, 4, 5, 6], "whois:rdap:whois");
    assert_eq!(groups.len(), 3);
    assert_eq!(group(&groups, Some("whois")), &vec![3, 5]);
    assert_eq!(group(&groups, Some("rdap")), &vec![4]);
    assert_eq!(group(&groups, None), &vec![6]);
}

#[test]
fn empty_names_count_as_no_name() {
    let groups = listener_fds_by_name(&[3, 4, 5], "::rdap");
    assert_eq!(groups.len(), 2);
    assert_eq!(group(&groups, None), &vec![3, 4]);
    assert_eq!(group(&groups, Some("rdap")), &vec![5]);
}

#[test]
fn every_descriptor_serves_exactly_one_role() {
    let groups = listener_fds_by_name(&[3, 4, 5, 6, 7], "a:rdap:b:rdap");
    let (mut whois, mut rdap) = split_listener_fds_by_role(groups);
    rdap.sort_unstable();
    assert_eq!(rdap, vec![4, 6]);
    whois.append(&mut rdap);
    whois.sort_unstable();
    assert_eq!(whois, vec![3, 4, 5, 6, 7]);
}

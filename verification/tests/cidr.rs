use whois42d_ng::cidr::RegistryCidr;
use whois42d_ng::ip::IpAddress;

fn v4(text: &str) -> IpAddress {
    let octets: Vec<u8> = text.split('.').map(|o| o.parse().unwrap()).collect();
    IpAddress::V4(u32::from_be_bytes([octets[0], octets[1], octets[2], octets[3]]))
}

#[test]
fn parses_registry_cidr_file_names() {
    let cidr = RegistryCidr::parse_file_name("172.21.86.192_27").expect("cidr should parse");

    assert!(cidr.contains(v4("172.21.86.193")));
    assert!(!cidr.contains(v4("172.21.86.254")));
    assert_eq!(cidr.file_name(), "172.21.86.192_27");
}

#[test]
fn cidr_prefix_longer_than_family_is_refused() {
    assert!(RegistryCidr::parse_file_name("172.21.86.192_33").is_none());
    assert!(RegistryCidr::parse_file_name("fd00::_129").is_none());
    assert!(RegistryCidr::parse_file_name("fd00::_128").is_some());
}

#[test]
fn cidr_file_name_needs_separator_and_numbers() {
    assert!(RegistryCidr::parse_file_name("172.21.86.192").is_none());
    assert!(RegistryCidr::parse_file_name("172.21.86.192_").is_none());
    assert!(RegistryCidr::parse_file_name("172.21.86.192_x").is_none());
    assert!(RegistryCidr::parse_file_name("172.21.86_27").is_none());
    assert!(RegistryCidr::parse_file_name("172.21.86.192_+27").is_some());
}

#[test]
fn cidr_query_uses_slash() {
    let cidr = RegistryCidr::parse_query("172.21.86.192/27").expect("query should parse");
    assert_eq!(cidr.prefix(), 27);
    assert_eq!(cidr.addr(), v4("172.21.86.192"));
    assert!(RegistryCidr::parse_query("172.21.86.192_27").is_some());
    assert!(RegistryCidr::parse_query("172.21.86.193").is_none());
}

#[test]
fn ipv6_cidr_contains_and_file_name() {
    let cidr = RegistryCidr::parse_file_name("fdea:a10b:3d3a::_48").expect("cidr should parse");
    let inside = IpAddress::V6(0xfdea_a10b_3d3a_0000_0000_0000_0000_0001);
    let outside = IpAddress::V6(0xfdea_a10b_3d3b_0000_0000_0000_0000_0001);
    assert!(cidr.contains(inside));
    assert!(!cidr.contains(outside));
    assert!(!cidr.contains(v4("172.21.86.193")));
    assert_eq!(cidr.file_name(), "fdea:a10b:3d3a::_48");
}

#[test]
fn zero_prefix_covers_every_address_of_its_family() {
    let cidr = RegistryCidr::parse_file_name("10.0.0.0_0").expect("cidr should parse");
    assert!(cidr.contains(v4("255.255.255.255")));
    assert!(cidr.contains(v4("0.0.0.0")));
}

#[test]
fn a_prefix_covers_its_own_address() {
    for name in ["172.21.86.193_27", "10.1.2.3_8", "fd42::1_64", "1.2.3.4_32"] {
        let cidr = RegistryCidr::parse_file_name(name).expect("cidr should parse");
        assert!(cidr.contains(cidr.addr()));
    }
}

#[test]
fn ipv4_file_names_read_back() {
    for name in ["0.0.0.0_0", "172.21.86.192_27", "10.100.0.7_32", "255.255.255.255_8", "1.2.3.4_+05"] {
        let cidr = RegistryCidr::parse_file_name(name).expect("cidr should parse");
        let again = RegistryCidr::parse_file_name(&cidr.file_name()).expect("file name should parse");
        assert_eq!(again, cidr);
    }
    let cidr = RegistryCidr::parse_file_name("1.2.3.4_+05").expect("cidr should parse");
    assert_eq!(cidr.file_name(), "1.2.3.4_5");
}

#[test]
fn leading_zeros_in_octets_are_refused() {
    assert!(RegistryCidr::parse_file_name("172.021.86.192_27").is_none());
    assert!(RegistryCidr::parse_file_name("172.21.86.192_027").is_some());
}

#[test]
fn ipv6_file_names_read_back() {
    for name in [
        "fdea:a10b:3d3a::_48",
        "::_0",
        "::1_128",
        "::ffff:1.2.3.4_128",
        "1:2:3:4:5:6:7:8_64",
        "1:0:0:2:0:0:0:3_64",
        "FD00:0:0:0:0:0:0:1_8",
    ] {
        let cidr = RegistryCidr::parse_file_name(name).expect("cidr should parse");
        let again = RegistryCidr::parse_file_name(&cidr.file_name()).expect("file name should parse");
        assert_eq!(again, cidr);
    }
    let cidr = RegistryCidr::parse_file_name("1:0:0:2:0:0:0:3_64").unwrap();
    assert_eq!(cidr.file_name(), "1:0:0:2::3_64");
    let cidr = RegistryCidr::parse_file_name("FD00:0:0:0:0:0:0:1_8").unwrap();
    assert_eq!(cidr.file_name(), "fd00::1_8");
    let cidr = RegistryCidr::parse_file_name("::ffff:1.2.3.4_128").unwrap();
    assert_eq!(cidr.file_name(), "::ffff:1.2.3.4_128");
}

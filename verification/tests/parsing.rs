use ctrl_cidr::cidr::{CidrMapError, parse_key_val};
use ctrl_cidr::ports::parse_port_protocols;

#[test]
fn test_parse_port_protocols_single() {
    let expected: Vec<(i32, String)> = vec![(443, "tcp".to_string())];
    assert_eq!(parse_port_protocols("443").unwrap(), expected);
}

#[test]
fn test_parse_port_protocols_multi() {
    let expected: Vec<(i32, String)> = vec![(443, "tcp".to_string()), (80, "tcp".to_string())];
    assert_eq!(parse_port_protocols("443:80").unwrap(), expected);
}

#[test]
fn test_parse_port_protocols_combine() {
    let expected: Vec<(i32, String)> = vec![(443, "udp".to_string()), (80, "-1".to_string())];
    assert_eq!(parse_port_protocols("443/udp:80/-1").unwrap(), expected);

    let expected: Vec<(i32, String)> = vec![(443, "-1".to_string()), (80, "tcp".to_string())];
    assert_eq!(parse_port_protocols("443/-1:80").unwrap(), expected);
}

#[test]
fn parse_port_protocols_rejects_garbage_port() {
    assert!(parse_port_protocols("https").is_err());
    assert!(parse_port_protocols("443:x").is_err());
    assert!(parse_port_protocols("").is_err());
    assert!(parse_port_protocols("99999999999").is_err());
}

#[test]
fn parse_port_protocols_signed_and_padded_ports() {
    assert_eq!(parse_port_protocols("-1").unwrap(), vec![(-1, "tcp".to_string())]);
    assert_eq!(parse_port_protocols("0443").unwrap(), vec![(443, "tcp".to_string())]);
}

#[test]
fn parse_key_val_accepts_name_and_cidr() {
    let (name, cidr) = parse_key_val("office=83.222.180.96/27").unwrap();
    assert_eq!(name, "office");
    assert_eq!(cidr, "83.222.180.96/27");
}

#[test]
fn parse_key_val_rejects_missing_equals() {
    assert_eq!(parse_key_val("office").unwrap_err(), CidrMapError::MissingName);
    assert_eq!(
        CidrMapError::MissingName.message(),
        "no name found for cidr mapping"
    );
}

#[test]
fn parse_key_val_rejects_colon_in_name() {
    assert_eq!(
        parse_key_val("of:fice=10.0.0.0/24").unwrap_err(),
        CidrMapError::ColonInName
    );
    assert_eq!(
        CidrMapError::ColonInName.message(),
        "colon (:) not allowed in cidr name"
    );
}

#[test]
fn parse_key_val_rejects_bad_cidr() {
    assert_eq!(parse_key_val("office=10.0.0.0/33").unwrap_err(), CidrMapError::InvalidCidr);
    assert_eq!(parse_key_val("office=not-a-cidr").unwrap_err(), CidrMapError::InvalidCidr);
    assert_eq!(CidrMapError::InvalidCidr.message(), "invalid CIDR");
}

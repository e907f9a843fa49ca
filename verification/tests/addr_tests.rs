use mastersrv_config::addr::Addr;
use mastersrv_config::addr::ConfigAddr;
use mastersrv_config::addr::IpNetRepr;
use mastersrv_config::addr::IpRepr;

fn v4(ip: u32, port: u16) -> Addr {
    Addr { ip: IpRepr::V4(ip), port }
}

fn v6(ip: u128, port: u16) -> Addr {
    Addr { ip: IpRepr::V6(ip), port }
}

#[test]
fn addr_from_str() {
    assert!(matches!(
        ConfigAddr::from_str("[::]:0"),
        Ok(ConfigAddr::WithPort(Addr { ip: IpRepr::V6(_), .. })),
    ));
    assert!(matches!(
        ConfigAddr::from_str("::"),
        Ok(ConfigAddr::OnlyIp(IpRepr::V6(_))),
    ));
    assert!(matches!(
        ConfigAddr::from_str("::/0"),
        Ok(ConfigAddr::Range(IpNetRepr::V6 { .. })),
    ));

    assert!(matches!(
        ConfigAddr::from_str("0.0.0.0:0"),
        Ok(ConfigAddr::WithPort(Addr { ip: IpRepr::V4(_), .. })),
    ));
    assert!(matches!(
        ConfigAddr::from_str("0.0.0.0"),
        Ok(ConfigAddr::OnlyIp(IpRepr::V4(_))),
    ));
    assert!(matches!(
        ConfigAddr::from_str("0.0.0.0/0"),
        Ok(ConfigAddr::Range(IpNetRepr::V4 { .. })),
    ));
}

#[test]
fn endpoint_rule_matches_exactly() {
    let rule = ConfigAddr::from_str("1.2.3.4:567").unwrap();
    assert_eq!(rule, ConfigAddr::WithPort(v4(0x01020304, 567)));
    assert!(rule.matches(v4(0x01020304, 567)));
    assert!(!rule.matches(v4(0x01020304, 568)));
    assert!(!rule.matches(v4(0x01020305, 567)));

    let rule6 = ConfigAddr::from_str("[::1]:8080").unwrap();
    assert_eq!(rule6, ConfigAddr::WithPort(v6(1, 8080)));
    assert!(rule6.matches(v6(1, 8080)));
    assert!(!rule6.matches(v6(1, 8081)));
    assert!(!rule6.matches(v6(2, 8080)));
}

#[test]
fn bare_ip_rule_matches_every_port() {
    let rule = ConfigAddr::from_str("1.2.3.4").unwrap();
    assert_eq!(rule, ConfigAddr::OnlyIp(IpRepr::V4(0x01020304)));
    assert!(rule.matches(v4(0x01020304, 0)));
    assert!(rule.matches(v4(0x01020304, 1234)));
    assert!(rule.matches(v4(0x01020304, 65535)));
    assert!(!rule.matches(v4(0x01020305, 1234)));
    assert!(!rule.matches(v6(0x01020304, 1234)));

    let rule6 = ConfigAddr::from_str("::1").unwrap();
    assert_eq!(rule6, ConfigAddr::OnlyIp(IpRepr::V6(1)));
    assert!(rule6.matches(v6(1, 9)));
    assert!(!rule6.matches(v6(2, 9)));
}

#[test]
fn cidr_rule_contains_by_prefix_mask() {
    let rule = ConfigAddr::from_str("10.0.0.0/8").unwrap();
    assert_eq!(rule, ConfigAddr::Range(IpNetRepr::V4 { addr: 0x0A000000, prefix: 8 }));
    assert!(rule.matches(v4(0x0A010203, 1)));  // 10.1.2.3
    assert!(rule.matches(v4(0x0A000000, 65535)));
    assert!(!rule.matches(v4(0x0B000000, 1)));  // 11.0.0.0
    assert!(!rule.matches(v6(0x0A010203, 1)));

    let all6 = ConfigAddr::from_str("::/0").unwrap();
    assert!(all6.matches(v6(u128::MAX, 1)));
    assert!(all6.matches(v6(0, 1)));
    assert!(!all6.matches(v4(0, 1)));

    let net6 = ConfigAddr::from_str("fe80::/10").unwrap();
    assert!(net6.matches(v6(0xfe80_0000_0000_0000_0000_0000_0000_0001, 5)));
    assert!(!net6.matches(v6(1, 5)));

    let host = ConfigAddr::from_str("10.1.1.1/32").unwrap();
    assert!(host.matches(v4(0x0A010101, 3)));
    assert!(!host.matches(v4(0x0A010102, 3)));
}

#[test]
fn ipv6_forms_parse_to_expected_values() {
    assert_eq!(
        ConfigAddr::from_str("1:2:3:4:5:6:7:8").unwrap(),
        ConfigAddr::OnlyIp(IpRepr::V6(0x0001_0002_0003_0004_0005_0006_0007_0008)),
    );
    assert_eq!(
        ConfigAddr::from_str("::ffff:1.2.3.4").unwrap(),
        ConfigAddr::OnlyIp(IpRepr::V6(0xffff_0102_0304)),
    );
    assert_eq!(
        ConfigAddr::from_str("1:2:3:4:5:6:1.2.3.4").unwrap(),
        ConfigAddr::OnlyIp(IpRepr::V6(0x0001_0002_0003_0004_0005_0006_0102_0304)),
    );
    assert_eq!(
        ConfigAddr::from_str("fe80::1").unwrap(),
        ConfigAddr::OnlyIp(IpRepr::V6(0xfe80_0000_0000_0000_0000_0000_0000_0001)),
    );
    assert_eq!(
        ConfigAddr::from_str("1::").unwrap(),
        ConfigAddr::OnlyIp(IpRepr::V6(0x0001_0000_0000_0000_0000_0000_0000_0000)),
    );
}

#[test]
fn malformed_rules_are_rejected() {
    assert!(ConfigAddr::from_str("").is_err());
    assert!(ConfigAddr::from_str("1.2.3").is_err());
    assert!(ConfigAddr::from_str("1.2.3.4.5").is_err());
    assert!(ConfigAddr::from_str("256.1.1.1").is_err());
    assert!(ConfigAddr::from_str("01.2.3.4").is_err());
    assert!(ConfigAddr::from_str("1.2.3.4:").is_err());
    assert!(ConfigAddr::from_str("1.2.3.4:65536").is_err());
    assert!(ConfigAddr::from_str("1:::2").is_err());
    assert!(ConfigAddr::from_str(":::").is_err());
    assert!(ConfigAddr::from_str("1:2:3:4:5:6:7:8:9").is_err());
    assert!(ConfigAddr::from_str("::1:2:3:4:5:6:7:8").is_err());
    assert!(ConfigAddr::from_str("10.0.0.0/33").is_err());
    assert!(ConfigAddr::from_str("::/129").is_err());
    assert!(ConfigAddr::from_str("[::1]").is_err());
    assert!(ConfigAddr::from_str("[::1]:").is_err());
    assert!(ConfigAddr::from_str("not an address").is_err());
}

use mastersrv_config::addr::Addr;
use mastersrv_config::addr::ConfigAddr;
use mastersrv_config::addr::IpRepr;
use mastersrv_config::config::Ban;
use mastersrv_config::config::CommunitiesInput;
use mastersrv_config::config::CommunityTokenTable;
use mastersrv_config::config::Config;
use mastersrv_config::config::ErrorKind;
use mastersrv_config::config::ParsedConfig;
use mastersrv_config::token::CommunityToken;
use mastersrv_config::token::PresentedTokenError;
use mastersrv_config::token::split_presented;

const SECRET: &str = "0123456789abcdefghijklmn";  // 24 characters

fn v4(ip: u32, port: u16) -> Addr {
    Addr { ip: IpRepr::V4(ip), port }
}

fn rule(s: &str) -> ConfigAddr {
    ConfigAddr::from_str(s).unwrap()
}

fn config_with_token(prefix: &str, secret: &str, community: &str) -> Config {
    let token = format!("{}{}", prefix, secret);
    let (_, h) = split_presented(&token).unwrap();
    let tok = CommunityToken::new(h, community.to_string()).unwrap();
    let mut table = CommunityTokenTable::new();
    assert!(table.insert(prefix.as_bytes().to_vec(), tok));
    Config::assemble(None, table, "banned".to_string(), Vec::new(), Vec::new(), None)
}

#[test]
fn first_matching_ban_wins() {
    let bans = vec![
        Ban { address: rule("10.0.0.0/8"), reason: Some("spam".to_string()) },
        Ban { address: rule("10.1.1.1"), reason: None },
    ];
    let config = Config::assemble(
        None,
        CommunityTokenTable::new(),
        "banned".to_string(),
        bans,
        Vec::new(),
        None,
    );
    // First match wins, not the most specific rule.
    assert_eq!(config.is_banned(v4(0x0A010101, 1234)), Some("spam"));
    assert_eq!(config.is_banned(v4(0x0A020202, 1)), Some("spam"));
    assert_eq!(config.is_banned(v4(0xC0A80001, 1)), None);  // 192.168.0.1
}

#[test]
fn ban_without_reason_earns_default_message() {
    let bans = vec![Ban { address: rule("10.1.1.1"), reason: None }];
    let config = Config::assemble(
        None,
        CommunityTokenTable::new(),
        "banned".to_string(),
        bans,
        Vec::new(),
        None,
    );
    assert_eq!(config.is_banned(v4(0x0A010101, 7)), Some("banned"));
}

#[test]
fn exemption_matches_ip_on_any_port() {
    let exceptions = vec![rule("127.0.0.1")];
    let config = Config::assemble(
        None,
        CommunityTokenTable::new(),
        "banned".to_string(),
        Vec::new(),
        exceptions,
        None,
    );
    assert!(config.is_exempt_from_port_forward_check(v4(0x7F000001, 1)));
    assert!(config.is_exempt_from_port_forward_check(v4(0x7F000001, 65535)));
    assert!(!config.is_exempt_from_port_forward_check(v4(0x7F000002, 1)));
}

#[test]
fn token_lookup_resolves_community() {
    let config = config_with_token("ABCDEF", SECRET, "mycommunity");
    let presented = format!("ABCDEF{}", SECRET);
    assert_eq!(config.community_for_token(&presented), Ok(Some("mycommunity")));
}

#[test]
fn unknown_prefix_and_wrong_secret_are_indistinguishable() {
    let config = config_with_token("ABCDEF", SECRET, "mycommunity");
    // Same prefix, wrong secret: the stored digest does not match.
    let wrong_secret = format!("ABCDEF{}", "nmlkjihgfedcba9876543210");
    assert_eq!(config.community_for_token(&wrong_secret), Ok(None));
    // Unknown prefix, any secret.
    let unknown_prefix = format!("ZZZZZZ{}", SECRET);
    assert_eq!(config.community_for_token(&unknown_prefix), Ok(None));
}

#[test]
fn malformed_presented_token_is_a_hard_error() {
    let config = config_with_token("ABCDEF", SECRET, "mycommunity");
    assert_eq!(
        config.community_for_token("ABCDEFAAAAAAAAAAAAAAAAAAAAAA"),
        Err(PresentedTokenError::LooksStored),
    );
    assert_eq!(
        config.community_for_token("nonsense"),
        Err(PresentedTokenError::Invalid),
    );
}

#[test]
fn duplicate_prefix_is_refused_by_the_table() {
    let t1 = format!("ABCDEF{}", SECRET);
    let (_, h1) = split_presented(&t1).unwrap();
    let t2 = format!("ABCDEF{}", "nmlkjihgfedcba9876543210");
    let (_, h2) = split_presented(&t2).unwrap();
    let mut table = CommunityTokenTable::new();
    assert!(table.insert(b"ABCDEF".to_vec(), CommunityToken::new(h1, "one".to_string()).unwrap()));
    // A second entry under the same prefix is refused even though its
    // digest differs.
    assert!(!table.insert(b"ABCDEF".to_vec(), CommunityToken::new(h2, "two".to_string()).unwrap()));
}

#[test]
fn config_load_fails_on_entries_sharing_a_prefix() {
    let entries = vec![
        ("ABCDEFAAAAAAAAAAAAAAAAAAAAAA".to_string(), "one".to_string()),
        ("ABCDEFBBBBBBBBBBBBBBBBBBBBBB".to_string(), "two".to_string()),
    ];
    let parsed = ParsedConfig {
        communities: Some(CommunitiesInput { json_text: "{}".to_string(), tokens: entries }),
        default_ban_message: None,
        bans: Vec::new(),
        port_forward_check_exceptions: Vec::new(),
        locations: None,
    };
    assert!(Config::from_parts(parsed).is_err());
}

#[test]
fn config_load_fails_on_malformed_token_entry() {
    let entries = vec![("not a stored token".to_string(), "one".to_string())];
    let parsed = ParsedConfig {
        communities: Some(CommunitiesInput { json_text: "{}".to_string(), tokens: entries }),
        default_ban_message: None,
        bans: Vec::new(),
        port_forward_check_exceptions: Vec::new(),
        locations: None,
    };
    let err = Config::from_parts(parsed).unwrap_err();
    assert_eq!(err.kind, ErrorKind::InvalidStoredToken);
    assert_eq!(err.detail, "not a stored token");
}

#[test]
fn config_load_names_a_pasted_presented_token() {
    let presented = format!("ABCDEF{}", SECRET);
    let entries = vec![(presented.clone(), "one".to_string())];
    let parsed = ParsedConfig {
        communities: Some(CommunitiesInput { json_text: "{}".to_string(), tokens: entries }),
        default_ban_message: None,
        bans: Vec::new(),
        port_forward_check_exceptions: Vec::new(),
        locations: None,
    };
    let err = Config::from_parts(parsed).unwrap_err();
    assert_eq!(err.kind, ErrorKind::StoredLooksPresented);
    assert_eq!(err.detail, presented);
}

#[test]
fn communities_document_is_normalized() {
    let parsed = ParsedConfig {
        communities: Some(CommunitiesInput {
            json_text: " {\"a\" :  1 ,\n \"b\": [ 2, 3 ] }".to_string(),
            tokens: Vec::new(),
        }),
        default_ban_message: None,
        bans: Vec::new(),
        port_forward_check_exceptions: Vec::new(),
        locations: None,
    };
    let config = Config::from_parts(parsed).unwrap();
    assert_eq!(config.communities, Some("{\"a\":1,\"b\":[2,3]}".to_string()));
}

#[test]
fn invalid_communities_document_fails_the_load() {
    let parsed = ParsedConfig {
        communities: Some(CommunitiesInput {
            json_text: "{ not json".to_string(),
            tokens: Vec::new(),
        }),
        default_ban_message: None,
        bans: Vec::new(),
        port_forward_check_exceptions: Vec::new(),
        locations: None,
    };
    let err = Config::from_parts(parsed).unwrap_err();
    assert_eq!(err.kind, ErrorKind::InvalidCommunitiesJson);
}

#[test]
fn default_ban_message_falls_back_to_banned() {
    let parsed = ParsedConfig {
        communities: None,
        default_ban_message: None,
        bans: vec![Ban { address: rule("10.1.1.1"), reason: None }],
        port_forward_check_exceptions: Vec::new(),
        locations: None,
    };
    let config = Config::from_parts(parsed).unwrap();
    assert_eq!(config.is_banned(v4(0x0A010101, 1)), Some("banned"));
    assert_eq!(config.communities, None);
}

#[test]
fn locations_file_parameter_builds_a_minimal_config() {
    let config = Config::from_locations_file_parameter("locations.json");
    assert_eq!(config.locations, Some("locations.json".to_string()));
    assert_eq!(config.communities, None);
    assert_eq!(config.is_banned(v4(1, 1)), None);
    assert!(!config.is_exempt_from_port_forward_check(v4(1, 1)));
}

#[test]
fn default_config_is_empty() {
    let config = Config::default();
    assert_eq!(config.communities, None);
    assert_eq!(config.locations, None);
    assert_eq!(config.is_banned(v4(1, 1)), None);
    let presented = format!("ABCDEF{}", SECRET);
    assert_eq!(config.community_for_token(&presented), Ok(None));
}

use sockudo::api::{cors_policy, validate_batch_size, validate_trigger_channels, TriggerError};
use sockudo::channel::{channel_type, is_cache_channel, is_client_event, is_valid_channel_name,
    requires_auth, ChannelType};
use sockudo::connection::{ConnectionState, SocketId};
use sockudo::text::{parse_u64, str_eq, u64_to_string};

#[test]
fn classifies_channels_by_prefix() {
    assert_eq!(channel_type("chat"), ChannelType::Public);
    assert_eq!(channel_type("private-room"), ChannelType::Private);
    assert_eq!(channel_type("private-encrypted-room"), ChannelType::PrivateEncrypted);
    assert_eq!(channel_type("presence-room"), ChannelType::Presence);
    // cache variants keep the kind of their base prefix
    assert_eq!(channel_type("cache-news"), ChannelType::Public);
    assert_eq!(channel_type("private-cache-news"), ChannelType::Private);
    assert_eq!(channel_type("presence-cache-news"), ChannelType::Presence);
}

#[test]
fn recognizes_cache_channels() {
    assert!(is_cache_channel("cache-news"));
    assert!(is_cache_channel("private-cache-news"));
    assert!(is_cache_channel("private-encrypted-cache-news"));
    assert!(is_cache_channel("presence-cache-news"));
    assert!(!is_cache_channel("news"));
    assert!(!is_cache_channel("private-news"));
}

#[test]
fn auth_requirement_follows_kind() {
    assert!(!requires_auth("chat"));
    assert!(requires_auth("private-room"));
    assert!(requires_auth("private-encrypted-room"));
    assert!(requires_auth("presence-room"));
    assert!(!requires_auth("cache-news"));
}

#[test]
fn client_events_by_prefix() {
    assert!(is_client_event("client-typing"));
    assert!(!is_client_event("pusher:ping"));
    assert!(!is_client_event("typing"));
}

#[test]
fn channel_name_validity() {
    assert!(is_valid_channel_name("presence-room_1,a.b;c=d@e"));
    assert!(!is_valid_channel_name(""));
    assert!(!is_valid_channel_name("bad channel"));
    assert!(!is_valid_channel_name("bad\"quote"));
    let long: String = std::iter::repeat('a').take(201).collect();
    assert!(!is_valid_channel_name(&long));
    let ok: String = std::iter::repeat('a').take(200).collect();
    assert!(is_valid_channel_name(&ok));
}

#[test]
fn decimal_text_round_trip() {
    assert_eq!(u64_to_string(0), "0");
    assert_eq!(u64_to_string(120), "120");
    assert_eq!(u64_to_string(u64::MAX), "18446744073709551615");
    assert_eq!(parse_u64("120"), Some(120));
    assert_eq!(parse_u64("18446744073709551615"), Some(u64::MAX));
    assert_eq!(parse_u64("18446744073709551616"), None);
    assert_eq!(parse_u64(""), None);
    assert_eq!(parse_u64("12a"), None);
}

#[test]
fn str_eq_compares_contents() {
    assert!(str_eq("abc", "abc"));
    assert!(!str_eq("abc", "abd"));
    assert!(!str_eq("abc", "ab"));
}

#[test]
fn socket_ids_are_two_decimals() {
    for _ in 0..16 {
        let sid = SocketId::new();
        let text = sid.as_str().to_string();
        let parts: Vec<&str> = text.split('.').collect();
        assert_eq!(parts.len(), 2);
        let a: u64 = parts[0].parse().expect("first half is a number");
        let b: u64 = parts[1].parse().expect("second half is a number");
        // each half is an unpadded decimal of at most ten digits
        assert!(a <= 9_999_999_999);
        assert!(b <= 9_999_999_999);
        assert!(parts[0].len() <= 10 && parts[1].len() <= 10);
    }
}

#[test]
fn connection_state_tracks_subscriptions() {
    let mut conn = ConnectionState::new();
    assert_eq!(conn.last_ping, "");
    assert!(!conn.is_presence());
    assert!(!conn.is_subscribed("chat"));
    conn.add_subscription(String::from("chat"));
    assert!(conn.is_subscribed("chat"));
    // adding again does not duplicate
    conn.add_subscription(String::from("chat"));
    assert_eq!(conn.subscribed_channels.len(), 1);
    conn.remove_subscription("chat");
    assert!(!conn.is_subscribed("chat"));
    assert_eq!(conn.subscribed_channels.len(), 0);
    assert_eq!(conn.get_app_key(), "");
}

#[test]
fn trigger_validation_caps_and_names() {
    let ok: Vec<String> = vec![String::from("chat"), String::from("presence-room")];
    assert!(validate_trigger_channels(&ok).is_ok());
    let bad = vec![String::from("chat"), String::from("bad channel")];
    assert_eq!(validate_trigger_channels(&bad), Err(TriggerError::InvalidChannelName));
    let many: Vec<String> = (0..101).map(|i| format!("c{i}")).collect();
    assert_eq!(validate_trigger_channels(&many), Err(TriggerError::TooManyChannels));
    let hundred: Vec<String> = (0..100).map(|i| format!("c{i}")).collect();
    assert!(validate_trigger_channels(&hundred).is_ok());
    assert!(validate_batch_size(10));
    assert!(!validate_batch_size(11));
}

#[test]
fn wildcard_origins_force_credentials_off() {
    let strict = vec![String::from("https://example.test")];
    assert_eq!(cors_policy(&strict, true), (false, true));
    assert_eq!(cors_policy(&strict, false), (false, false));
    let open = vec![String::from("https://example.test"), String::from("*")];
    assert_eq!(cors_policy(&open, true), (true, false));
    let any = vec![String::from("Any")];
    assert_eq!(cors_policy(&any, true), (true, false));
}

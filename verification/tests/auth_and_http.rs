use sockudo::auth::{body_signature, channel_signature, constant_time_str_eq, hex_encode,
    verify_channel_auth, verify_signin};
use sockudo::http_auth::{http_signature, remove_param, verify_http_signature};

#[test]
fn hmac_matches_known_vector() {
    // HMAC-SHA256("key", "The quick brown fox jumps over the lazy dog")
    let sig = body_signature("key", "The quick brown fox jumps over the lazy dog");
    assert_eq!(sig, "f7bc83f430538424b13298e6aa6fb143ef4d59a14946175997479dbc2d1a3cd8");
}

#[test]
fn hex_encode_lower_case() {
    assert_eq!(hex_encode(&vec![0xbe, 0xef]), "beef");
    assert_eq!(hex_encode(&vec![0x00, 0x0f, 0xa0]), "000fa0");
    assert_eq!(hex_encode(&vec![]), "");
}

#[test]
fn constant_time_compare() {
    assert!(constant_time_str_eq("deadbeef", "deadbeef"));
    assert!(!constant_time_str_eq("deadbeef", "deadbeee"));
    assert!(!constant_time_str_eq("deadbeef", "deadbee"));
    assert!(constant_time_str_eq("", ""));
}

#[test]
fn channel_auth_accepts_correct_signature() {
    let sig = channel_signature("secret", "1234.5678", "private-x", None);
    assert!(verify_channel_auth("secret", "1234.5678", "private-x", None, &sig));
}

#[test]
fn channel_auth_rejects_wrong_secret() {
    // a token signed with the wrong secret is refused
    let forged = channel_signature("wrong", "1234.5678", "private-x", None);
    assert!(!verify_channel_auth("secret", "1234.5678", "private-x", None, &forged));
}

#[test]
fn presence_auth_covers_channel_data() {
    let data = "{\"user_id\":\"u1\",\"user_info\":{\"n\":\"a\"}}";
    let sig = channel_signature("secret", "1.2", "presence-room", Some(data));
    assert!(verify_channel_auth("secret", "1.2", "presence-room", Some(data), &sig));
    // the same signature without the data does not pass
    assert!(!verify_channel_auth("secret", "1.2", "presence-room", None, &sig));
}

#[test]
fn signin_signature_round_trip() {
    let user_data = "{\"id\":\"u1\"}";
    let msg_sig = {
        // signed over "<socket_id>::user::<user_data>"
        let body = format!("{}::user::{}", "9.9", user_data);
        body_signature("secret", &body)
    };
    assert!(verify_signin("secret", "9.9", user_data, &msg_sig));
    assert!(!verify_signin("other", "9.9", user_data, &msg_sig));
}

#[test]
fn http_signature_independent_of_param_order() {
    let p1 = vec![
        (String::from("auth_key"), String::from("demo-key")),
        (String::from("auth_timestamp"), String::from("1700000000")),
        (String::from("auth_version"), String::from("1.0")),
    ];
    let p2 = vec![
        (String::from("auth_version"), String::from("1.0")),
        (String::from("auth_key"), String::from("demo-key")),
        (String::from("auth_timestamp"), String::from("1700000000")),
    ];
    let s1 = http_signature("secret", "POST", "/apps/1/events", &p1);
    let s2 = http_signature("secret", "POST", "/apps/1/events", &p2);
    assert_eq!(s1, s2);
    assert!(verify_http_signature("secret", "POST", "/apps/1/events", &p2, &s1));
    assert!(!verify_http_signature("other", "POST", "/apps/1/events", &p2, &s1));
}

#[test]
fn remove_param_strips_signature_field() {
    let params = vec![
        (String::from("auth_key"), String::from("k")),
        (String::from("auth_signature"), String::from("sig")),
        (String::from("auth_timestamp"), String::from("1")),
    ];
    let cleaned = remove_param(&params, "auth_signature");
    assert_eq!(cleaned.len(), 2);
    assert_eq!(cleaned[0].0, "auth_key");
    assert_eq!(cleaned[1].0, "auth_timestamp");
}

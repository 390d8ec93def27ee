use sockudo::app::{App, AppRegistry};
use sockudo::channel_manager::{admit_close_code, resolve_app, subscribe_error_code, AdmitError,
    ChannelManager, ClientEventError, PresenceInput, SubscribeError};
use sockudo::connection::{activity_action, ActivityAction, ConnectionState, SocketId};
use sockudo::namespace::Namespace;
use sockudo::presence::presence_payload;

fn demo_app() -> App {
    App {
        id: String::from("demo-app"),
        key: String::from("demo-key"),
        secret: String::from("demo-secret"),
        enabled: true,
        max_connections: 2,
        max_client_events_per_second: 3,
        max_channels_per_connection: 2,
        enable_client_messages: true,
        max_presence_members_per_channel: 2,
        max_presence_member_size_kb: 1,
        max_backend_events_per_second: 100,
        max_read_requests_per_second: 100,
        webhooks: Vec::new(),
    }
}

fn conn(id: &str) -> ConnectionState {
    ConnectionState {
        socket_id: SocketId(String::from(id)),
        app: None,
        subscribed_channels: Vec::new(),
        user_id: None,
        last_ping: String::new(),
        presence: Vec::new(),
        user: None,
    }
}

#[test]
fn registry_refuses_duplicate_ids() {
    let mut reg = AppRegistry::new();
    assert!(reg.register(demo_app()));
    assert!(!reg.register(demo_app()));
    assert!(reg.find_by_id("demo-app").is_some());
    assert!(reg.find_by_key("demo-key").is_some());
    assert!(reg.find_by_id("other").is_none());
}

#[test]
fn namespace_keeps_both_directions_in_step() {
    let mut ns = Namespace::new();
    assert!(ns.add_socket(conn("1.1")));
    assert!(!ns.add_socket(conn("1.1")));
    assert!(ns.add_socket(conn("2.2")));
    assert_eq!(ns.socket_count(), 2);

    assert_eq!(ns.add_to_channel("1.1", "chat"), Some(1));
    assert_eq!(ns.add_to_channel("2.2", "chat"), Some(2));
    // membership shows on both sides: the index and the socket's own list
    assert_eq!(ns.channel_count("chat"), 2);
    assert!(ns.is_subscribed("1.1", "chat"));
    let members = ns.get_channel_sockets("chat");
    let names: Vec<String> = members.iter().map(|m| m.as_str().to_string()).collect();
    assert!(names.contains(&String::from("1.1")));
    assert!(names.contains(&String::from("2.2")));

    // subscribing twice does not double-count
    assert_eq!(ns.add_to_channel("1.1", "chat"), Some(2));

    assert_eq!(ns.remove_from_channel("1.1", "chat"), 1);
    assert!(!ns.is_subscribed("1.1", "chat"));
    assert_eq!(ns.remove_from_channel("2.2", "chat"), 0);
    assert_eq!(ns.channel_count("chat"), 0);
}

#[test]
fn subscribe_then_unsubscribe_restores_initial_state() {
    let mut ns = Namespace::new();
    assert!(ns.add_socket(conn("1.1")));
    let before_count = ns.channel_count("room");
    let before_sockets = ns.socket_count();
    assert_eq!(ns.add_to_channel("1.1", "room"), Some(1));
    assert_eq!(ns.remove_from_channel("1.1", "room"), 0);
    assert_eq!(ns.channel_count("room"), before_count);
    assert_eq!(ns.socket_count(), before_sockets);
    assert!(!ns.is_subscribed("1.1", "room"));
    assert!(ns.get_channel_sockets("room").is_empty());
}

#[test]
fn user_index_and_termination() {
    let mut ns = Namespace::new();
    assert!(ns.add_socket(conn("1.1")));
    assert!(ns.add_socket(conn("2.2")));
    ns.add_user_socket("u1", "1.1");
    ns.add_user_socket("u1", "2.2");
    let sockets = ns.terminate_user("u1");
    assert_eq!(sockets.len(), 2);
    // termination forgot the user entirely
    assert!(ns.terminate_user("u1").is_empty());
}

#[test]
fn admission_respects_max_connections() {
    let app = demo_app();  // max_connections = 2
    let mut mgr = ChannelManager::new();
    assert!(mgr.admit_socket(conn("1.1"), &app).is_ok());
    assert!(mgr.admit_socket(conn("2.2"), &app).is_ok());
    assert_eq!(mgr.admit_socket(conn("3.3"), &app), Err(AdmitError::OverCapacity));
    assert_eq!(mgr.admit_socket(conn("1.1"), &app), Err(AdmitError::OverCapacity));
}

#[test]
fn subscribe_emits_occupied_only_on_first_member() {
    let app = demo_app();
    let mut mgr = ChannelManager::new();
    mgr.admit_socket(conn("1.1"), &app).unwrap();
    mgr.admit_socket(conn("2.2"), &app).unwrap();
    let first = mgr.subscribe_authorized("1.1", "chat", &app, true, None).unwrap();
    assert_eq!(first.new_count, 1);
    assert!(first.channel_occupied);
    assert!(first.member_added.is_none());
    let second = mgr.subscribe_authorized("2.2", "chat", &app, true, None).unwrap();
    assert_eq!(second.new_count, 2);
    assert!(!second.channel_occupied);
}

#[test]
fn vacated_only_when_last_member_leaves() {
    let app = demo_app();
    let mut mgr = ChannelManager::new();
    mgr.admit_socket(conn("1.1"), &app).unwrap();
    mgr.admit_socket(conn("2.2"), &app).unwrap();
    mgr.subscribe_authorized("1.1", "chat", &app, true, None).unwrap();
    mgr.subscribe_authorized("2.2", "chat", &app, true, None).unwrap();
    let out1 = mgr.unsubscribe("1.1", "chat");
    assert_eq!(out1.new_count, 1);
    assert!(!out1.channel_vacated);
    let out2 = mgr.unsubscribe("2.2", "chat");
    assert_eq!(out2.new_count, 0);
    assert!(out2.channel_vacated);
    // unsubscribing an absent member changes nothing
    let out3 = mgr.unsubscribe("2.2", "chat");
    assert_eq!(out3.new_count, 0);
    assert!(!out3.channel_vacated);
}

#[test]
fn private_channel_needs_valid_signature() {
    let app = demo_app();
    let mut mgr = ChannelManager::new();
    mgr.admit_socket(conn("1.1"), &app).unwrap();
    let r = mgr.subscribe_authorized("1.1", "private-x", &app, false, None);
    assert_eq!(r.unwrap_err(), SubscribeError::AuthenticationFailed);
    // the socket remains not subscribed
    let out = mgr.unsubscribe("1.1", "private-x");
    assert_eq!(out.new_count, 0);
    assert!(!out.channel_vacated);
}

#[test]
fn channel_limit_rejected_one_past_the_cap() {
    let app = demo_app();  // max_channels_per_connection = 2
    let mut mgr = ChannelManager::new();
    mgr.admit_socket(conn("1.1"), &app).unwrap();
    assert!(mgr.subscribe_authorized("1.1", "a", &app, true, None).is_ok());
    assert!(mgr.subscribe_authorized("1.1", "b", &app, true, None).is_ok());
    let r = mgr.subscribe_authorized("1.1", "c", &app, true, None);
    assert_eq!(r.unwrap_err(), SubscribeError::ChannelLimitExceeded);
    // state unchanged: the third channel stayed empty
    let out = mgr.unsubscribe("1.1", "c");
    assert_eq!(out.new_count, 0);
    assert!(!out.channel_vacated);
    // a channel already held resubscribes fine at the cap
    assert!(mgr.subscribe_authorized("1.1", "a", &app, true, None).is_ok());
}

fn presence(user: &str) -> PresenceInput {
    PresenceInput { user_id: String::from(user), user_info: String::from("{}") }
}

#[test]
fn presence_join_at_cap_succeeds_one_past_is_rejected() {
    let app = demo_app();  // max_presence_members_per_channel = 2
    let mut app3 = demo_app();
    app3.max_connections = 3;
    let mut mgr = ChannelManager::new();
    mgr.admit_socket(conn("1.1"), &app3).unwrap();
    mgr.admit_socket(conn("2.2"), &app3).unwrap();
    mgr.admit_socket(conn("3.3"), &app3).unwrap();

    let r1 = mgr.subscribe_authorized("1.1", "presence-room", &app, true, Some(&presence("u1")));
    assert_eq!(r1.unwrap().member_added.as_deref(), Some("u1"));
    // joining at exactly the cap succeeds
    let r2 = mgr.subscribe_authorized("2.2", "presence-room", &app, true, Some(&presence("u2")));
    assert_eq!(r2.unwrap().member_added.as_deref(), Some("u2"));
    // one past the cap is rejected
    let r3 = mgr.subscribe_authorized("3.3", "presence-room", &app, true, Some(&presence("u3")));
    assert_eq!(r3.unwrap_err(), SubscribeError::PresenceLimitExceeded);
    // a user already on the roster re-subscribes without a new member event
    let r4 = mgr.subscribe_authorized("1.1", "presence-room", &app, true, Some(&presence("u1")));
    assert!(r4.unwrap().member_added.is_none());
}

#[test]
fn presence_needs_data_of_reasonable_size() {
    let app = demo_app();  // max_presence_member_size_kb = 1
    let mut mgr = ChannelManager::new();
    mgr.admit_socket(conn("1.1"), &app).unwrap();
    let none = mgr.subscribe_authorized("1.1", "presence-room", &app, true, None);
    assert_eq!(none.unwrap_err(), SubscribeError::MissingPresenceData);
    let big = PresenceInput {
        user_id: String::from("u1"),
        user_info: std::iter::repeat('x').take(2000).collect(),
    };
    let r = mgr.subscribe_authorized("1.1", "presence-room", &app, true, Some(&big));
    assert_eq!(r.unwrap_err(), SubscribeError::PresenceDataTooLarge);
}

#[test]
fn the_connection_remembers_its_presence_data() {
    let app = demo_app();
    let mut mgr = ChannelManager::new();
    mgr.admit_socket(conn("1.1"), &app).unwrap();
    assert_eq!(mgr.presence_record("1.1", "presence-room"), None);
    let input = PresenceInput {
        user_id: String::from("u1"),
        user_info: String::from("{\"n\":\"a\"}"),
    };
    mgr.subscribe_authorized("1.1", "presence-room", &app, true, Some(&input)).unwrap();
    assert_eq!(
        mgr.presence_record("1.1", "presence-room"),
        Some((String::from("u1"), String::from("{\"n\":\"a\"}"))),
    );
    // a plain channel writes no record
    mgr.subscribe_authorized("1.1", "chat", &app, true, None).unwrap();
    assert_eq!(mgr.presence_record("1.1", "chat"), None);
    // leaving the channel clears the record
    mgr.unsubscribe("1.1", "presence-room");
    assert_eq!(mgr.presence_record("1.1", "presence-room"), None);
}

#[test]
fn member_removed_pairs_with_member_added() {
    let app = demo_app();
    let mut mgr = ChannelManager::new();
    mgr.admit_socket(conn("1.1"), &app).unwrap();
    let joined = mgr.subscribe_authorized(
        "1.1",
        "presence-room",
        &app,
        true,
        Some(&presence("u1")),
    ).unwrap();
    assert_eq!(joined.member_added.as_deref(), Some("u1"));
    let left = mgr.unsubscribe("1.1", "presence-room");
    assert_eq!(left.member_removed.map(|u| u.to_string()), Some(String::from("u1")));
    // a second unsubscribe emits nothing further
    let again = mgr.unsubscribe("1.1", "presence-room");
    assert!(again.member_removed.is_none());
}

#[test]
fn cleanup_unsubscribes_everything_and_is_idempotent() {
    let app = demo_app();
    let mut mgr = ChannelManager::new();
    mgr.admit_socket(conn("1.1"), &app).unwrap();
    mgr.subscribe_authorized("1.1", "a", &app, true, None).unwrap();
    mgr.subscribe_authorized("1.1", "presence-room", &app, true, Some(&presence("u1"))).unwrap();
    let records = mgr.cleanup_connection("1.1");
    assert_eq!(records.len(), 2);
    let vacated: Vec<&String> = records.iter().filter(|r| r.1.channel_vacated).map(|r| &r.0)
        .collect();
    assert_eq!(vacated.len(), 2);
    assert!(records.iter().any(|r| r.1.member_removed.as_deref() == Some("u1")));
    // a second cleanup finds nothing
    assert!(mgr.cleanup_connection("1.1").is_empty());
    // the slot is free again
    assert!(mgr.admit_socket(conn("1.1"), &app).is_ok());
}

#[test]
fn client_event_rules() {
    let app = demo_app();
    let mgr = ChannelManager::new();
    assert!(mgr.check_client_event(&app, "private-room", "client-typing").is_ok());
    assert_eq!(
        mgr.check_client_event(&app, "private-room", "typing").unwrap_err(),
        ClientEventError::NotAClientEvent,
    );
    assert_eq!(
        mgr.check_client_event(&app, "chat", "client-typing").unwrap_err(),
        ClientEventError::PublicChannel,
    );
    let mut muted = demo_app();
    muted.enable_client_messages = false;
    assert_eq!(
        mgr.check_client_event(&muted, "private-room", "client-typing").unwrap_err(),
        ClientEventError::ClientEventsDisabled,
    );
}

#[test]
fn signin_binds_and_termination_closes_everything() {
    let mut app = demo_app();
    app.max_connections = 3;
    let mut mgr = ChannelManager::new();
    mgr.admit_socket(conn("1.1"), &app).unwrap();
    mgr.admit_socket(conn("2.2"), &app).unwrap();
    mgr.admit_socket(conn("3.3"), &app).unwrap();
    assert!(mgr.signin("1.1", "u1"));
    assert!(mgr.signin("2.2", "u1"));
    assert!(mgr.signin("3.3", "u2"));
    assert!(!mgr.signin("9.9", "u1"));
    mgr.subscribe_authorized("1.1", "chat", &app, true, None).unwrap();

    let closed = mgr.terminate_user_connections("u1");
    let mut ids: Vec<String> = closed.iter().map(|s| s.as_str().to_string()).collect();
    ids.sort();
    assert_eq!(ids, vec![String::from("1.1"), String::from("2.2")]);
    // their channels were cleaned up, the other user is untouched
    assert_eq!(mgr.channel_count("chat"), 0);
    assert_eq!(mgr.socket_count(), 1);
    assert!(mgr.terminate_user_connections("u1").is_empty());
    assert_eq!(mgr.terminate_user_connections("u2").len(), 1);
}

#[test]
fn channel_listings_report_live_counts() {
    let app = demo_app();
    let mut mgr = ChannelManager::new();
    mgr.admit_socket(conn("1.1"), &app).unwrap();
    mgr.admit_socket(conn("2.2"), &app).unwrap();
    mgr.subscribe_authorized("1.1", "chat", &app, true, None).unwrap();
    mgr.subscribe_authorized("2.2", "chat", &app, true, None).unwrap();
    mgr.subscribe_authorized("1.1", "news", &app, true, None).unwrap();
    let mut listing = mgr.channels_with_counts();
    listing.sort_by(|a, b| a.0.cmp(&b.0));
    assert_eq!(listing.len(), 2);
    assert_eq!(listing[0].0, "chat");
    assert_eq!(listing[0].1, 2);
    assert_eq!(listing[1].0, "news");
    assert_eq!(listing[1].1, 1);
    assert_eq!(mgr.channel_count("chat"), 2);
    assert_eq!(mgr.channel_count("idle"), 0);
}

#[test]
fn presence_roster_lists_users_and_info() {
    let app = demo_app();
    let mut mgr = ChannelManager::new();
    mgr.admit_socket(conn("1.1"), &app).unwrap();
    mgr.admit_socket(conn("2.2"), &app).unwrap();
    let p1 = PresenceInput {
        user_id: String::from("u1"),
        user_info: String::from("{\"n\":\"a\"}"),
    };
    let p2 = PresenceInput {
        user_id: String::from("u2"),
        user_info: String::from("{\"n\":\"b\"}"),
    };
    mgr.subscribe_authorized("1.1", "presence-room", &app, true, Some(&p1)).unwrap();
    mgr.subscribe_authorized("2.2", "presence-room", &app, true, Some(&p2)).unwrap();
    let mut roster = mgr.presence_members("presence-room");
    roster.sort_by(|a, b| a.0.cmp(&b.0));
    assert_eq!(roster.len(), 2);
    assert_eq!(roster[0], (String::from("u1"), String::from("{\"n\":\"a\"}")));
    assert_eq!(roster[1], (String::from("u2"), String::from("{\"n\":\"b\"}")));
    assert!(mgr.presence_members("presence-empty").is_empty());
}

#[test]
fn unknown_socket_and_duplicate_admission() {
    let mut app = demo_app();
    app.max_connections = 5;
    let mut mgr = ChannelManager::new();
    mgr.admit_socket(conn("1.1"), &app).unwrap();
    assert_eq!(mgr.admit_socket(conn("1.1"), &app), Err(AdmitError::DuplicateSocket));
    let r = mgr.subscribe_authorized("9.9", "chat", &app, true, None);
    assert_eq!(r.unwrap_err(), SubscribeError::UnknownSocket);
}

#[test]
fn handshake_resolution_codes() {
    let mut reg = AppRegistry::new();
    let mut disabled = demo_app();
    disabled.id = String::from("off-app");
    disabled.key = String::from("off-key");
    disabled.enabled = false;
    assert!(reg.register(demo_app()));
    assert!(reg.register(disabled));
    assert!(resolve_app(&reg, "demo-key").is_ok());
    assert_eq!(resolve_app(&reg, "nope").unwrap_err(), 4001);
    assert_eq!(resolve_app(&reg, "off-key").unwrap_err(), 4003);
}

#[test]
fn refusal_codes_match_the_protocol() {
    assert_eq!(admit_close_code(AdmitError::OverCapacity), 4004);
    assert_eq!(subscribe_error_code(SubscribeError::AuthenticationFailed), 4009);
}

#[test]
fn idle_watchdog_decision() {
    // quiet socket inside the activity window: wait
    assert_eq!(activity_action(1_000, None, 100_000, 120_000, 30_000), ActivityAction::Wait);
    // past the activity window: probe with a ping
    assert_eq!(activity_action(1_000, None, 121_001, 120_000, 30_000), ActivityAction::SendPing);
    // ping answered late enough: close with the ping-timeout code
    assert_eq!(
        activity_action(1_000, Some(121_001), 151_001, 120_000, 30_000),
        ActivityAction::ClosePingTimeout,
    );
    assert_eq!(
        activity_action(1_000, Some(121_001), 140_000, 120_000, 30_000),
        ActivityAction::Wait,
    );
}

#[test]
fn presence_payload_matches_the_wire_shape() {
    let roster = vec![
        (String::from("u1"), String::from("{\"n\":\"a\"}")),
        (String::from("u2"), String::from("{\"n\":\"b\"}")),
    ];
    let payload = presence_payload(&roster);
    let expected = String::from("{\"presence\":{\"count\":2,\"ids\":[\"u1\",\"u2\"],")
        + "\"hash\":{\"u1\":{\"n\":\"a\"},\"u2\":{\"n\":\"b\"}}}}";
    assert_eq!(payload, expected);
    let empty: Vec<(String, String)> = Vec::new();
    assert_eq!(
        presence_payload(&empty),
        "{\"presence\":{\"count\":0,\"ids\":[],\"hash\":{}}}",
    );
}

use sockudo::adapter::{accepts_envelope, broadcast_targets, have_all_replies,
    merge_socket_counts, BroadcastEnvelope, PeerRegistry};
use sockudo::app::Webhook;
use sockudo::auth::body_signature;
use sockudo::cache::{CacheReplay, MemoryCache};
use sockudo::connection::{ConnectionState, SocketId};
use sockudo::frame::{parse_frame, serialize_frame, Frame};
use sockudo::namespace::Namespace;
use sockudo::queue::{JobData, MemoryQueueManager, QueueInterface};
use sockudo::rate_limiter::{MemoryRateLimiter, RateLimitConfig, RateLimiter};
use sockudo::webhook::{batch_body, make_job, webhook_wants, WebhookBatcher, WebhookEvent};

fn conn(id: &str) -> ConnectionState {
    ConnectionState {
        socket_id: SocketId(String::from(id)),
        app: None,
        subscribed_channels: Vec::new(),
        user_id: None,
        last_ping: String::new(),
        presence: Vec::new(),
        user: None,
    }
}

#[test]
fn rate_limit_allows_exactly_the_cap_per_window() {
    let mut limiter = MemoryRateLimiter::new(3, 1);
    let t0: u64 = 10_000;
    assert!(limiter.increment("sock", t0).allowed);
    assert!(limiter.increment("sock", t0 + 100).allowed);
    let third = limiter.increment("sock", t0 + 200);
    assert!(third.allowed);
    assert_eq!(third.remaining, 0);
    // the next one within the same second is rejected
    let fourth = limiter.increment("sock", t0 + 300);
    assert!(!fourth.allowed);
    assert_eq!(fourth.limit, 3);
    assert_eq!(fourth.reset_after, 1);
    assert_eq!(limiter.check("sock", t0 + 300).reset_after, 1);
    // a fresh window admits again
    assert!(limiter.increment("sock", t0 + 1000).allowed);
    // other keys are untouched
    assert!(limiter.check("other", t0 + 300).allowed);
}

#[test]
fn rate_limit_reset_and_remaining() {
    let mut limiter = MemoryRateLimiter::new(2, 60);
    limiter.increment("k", 0);
    assert_eq!(limiter.get_remaining("k", 10), 1);
    limiter.reset("k");
    assert_eq!(limiter.get_remaining("k", 10), 2);
}

#[test]
fn rate_limit_config_default() {
    let cfg = RateLimitConfig::default();
    assert_eq!(cfg.max_requests, 60);
    assert_eq!(cfg.window_secs, 60);
    assert!(cfg.identifier.is_none());
}

#[test]
fn cache_honours_expiry() {
    let mut cache = MemoryCache::new();
    cache.set("cache-news", "{\"event\":\"E\"}", 30_000);
    assert_eq!(cache.get("cache-news", 10_000).as_deref(), Some("{\"event\":\"E\"}"));
    assert_eq!(cache.get("cache-news", 30_000), None);
    assert_eq!(cache.get("missing", 0), None);
    // overwriting replaces value and deadline
    cache.set("cache-news", "new", 50_000);
    assert_eq!(cache.get("cache-news", 40_000).as_deref(), Some("new"));
}

#[test]
fn cache_replay_on_subscribe() {
    let mut cache = MemoryCache::new();
    match cache.on_subscribe("cache-news", 0) {
        CacheReplay::CacheMiss => {},
        _ => panic!("a cold cache channel reports a miss"),
    }
    cache.set("cache-news", "E", 60_000);
    match cache.on_subscribe("cache-news", 30_000) {
        CacheReplay::Replay(v) => assert_eq!(v, "E"),
        _ => panic!("a warm cache channel replays the last event"),
    }
    match cache.on_subscribe("news", 0) {
        CacheReplay::NotCacheChannel => {},
        _ => panic!("a plain channel has no cache say"),
    }
}

#[test]
fn queue_is_fifo_per_name() {
    let mut q = MemoryQueueManager::new();
    let job = |body: &str| JobData {
        url: String::from("http://127.0.0.1/hooks"),
        app_key: String::from("demo-key"),
        signature: String::from("sig"),
        body: String::from(body),
    };
    q.add_to_queue("webhooks", job("one"));
    q.add_to_queue("webhooks", job("two"));
    q.add_to_queue("other", job("three"));
    assert_eq!(q.pop_job("webhooks").unwrap().body, "one");
    assert_eq!(q.pop_job("webhooks").unwrap().body, "two");
    assert!(q.pop_job("webhooks").is_none());
    assert_eq!(q.pop_job("other").unwrap().body, "three");
    q.disconnect();
}

#[test]
fn webhook_filtering_by_type_and_prefix() {
    let hook = Webhook {
        url: String::from("http://127.0.0.1/hooks"),
        event_types: vec![String::from("member_added"), String::from("member_removed")],
        filter_prefix: Some(String::from("presence-")),
    };
    assert!(webhook_wants(&hook, "member_added", "presence-room"));
    assert!(!webhook_wants(&hook, "channel_occupied", "presence-room"));
    assert!(!webhook_wants(&hook, "member_added", "private-room"));
}

#[test]
fn batching_gathers_rapid_events_into_one_delivery() {
    let mut batcher = WebhookBatcher::new(true, 50);
    let ev = |name: &str, ch: &str| WebhookEvent {
        name: String::from(name),
        channel: String::from(ch),
        user_id: None,
    };
    assert!(batcher.add(ev("channel_occupied", "a"), 1_000).is_none());
    assert!(batcher.add(ev("channel_occupied", "b"), 1_010).is_none());
    assert!(batcher.add(ev("channel_occupied", "c"), 1_020).is_none());
    // nothing is due before the window that opened at the first event ends
    assert!(batcher.flush_due(1_040).is_none());
    let batch = batcher.flush_due(1_050).expect("window passed");
    assert_eq!(batch.len(), 3);
    assert_eq!(batch[0].channel, "a");
    assert_eq!(batch[1].channel, "b");
    assert_eq!(batch[2].channel, "c");
    // the buffer is empty again
    assert!(batcher.flush_due(2_000).is_none());
    // an event arriving after its window passed flushes with the batch
    assert!(batcher.add(ev("channel_vacated", "a"), 3_000).is_none());
    let late = batcher.add(ev("channel_vacated", "b"), 3_060).expect("window passed");
    assert_eq!(late.len(), 2);
}

#[test]
fn batching_disabled_flushes_each_event_alone() {
    let mut batcher = WebhookBatcher::new(false, 50);
    let ev = WebhookEvent {
        name: String::from("channel_vacated"),
        channel: String::from("a"),
        user_id: None,
    };
    let batch = batcher.add(ev, 0).expect("immediate delivery");
    assert_eq!(batch.len(), 1);
}

#[test]
fn jobs_carry_the_body_signature() {
    let body = "{\"time_ms\":1000,\"events\":[]}";
    let job = make_job("http://127.0.0.1/hooks", "demo-key", "demo-secret", body);
    assert_eq!(job.signature, body_signature("demo-secret", body));
    assert_eq!(job.body, body);
    assert_eq!(job.app_key, "demo-key");
}

#[test]
fn two_node_fan_out_reaches_each_subscriber_once() {
    // node A holds c1, node B holds c2; both subscribe to `chat`
    let mut node_a = Namespace::new();
    let mut node_b = Namespace::new();
    assert!(node_a.add_socket(conn("1.1")));
    assert!(node_b.add_socket(conn("2.2")));
    node_a.add_to_channel("1.1", "chat");
    node_b.add_to_channel("2.2", "chat");

    // a trigger on A: deliver locally, then publish the envelope
    let local = broadcast_targets(&node_a, "chat", None);
    let envelope = BroadcastEnvelope {
        node_id: String::from("node-a"),
        app_id: String::from("demo-app"),
        channel: String::from("chat"),
        message: String::from("{\"event\":\"msg\",\"data\":\"hi\"}"),
        except: None,
    };
    // A ignores its own envelope; B processes it
    assert!(!accepts_envelope("node-a", &envelope));
    assert!(accepts_envelope("node-b", &envelope));
    let remote = broadcast_targets(&node_b, envelope.channel.as_str(), None);

    let mut delivered: Vec<String> = Vec::new();
    for sid in local.iter().chain(remote.iter()) {
        delivered.push(sid.as_str().to_string());
    }
    delivered.sort();
    assert_eq!(delivered, vec![String::from("1.1"), String::from("2.2")]);
}

#[test]
fn broadcast_skips_the_excluded_sender() {
    let mut ns = Namespace::new();
    assert!(ns.add_socket(conn("1.1")));
    assert!(ns.add_socket(conn("2.2")));
    ns.add_to_channel("1.1", "chat");
    ns.add_to_channel("2.2", "chat");
    let targets = broadcast_targets(&ns, "chat", Some("1.1"));
    assert_eq!(targets.len(), 1);
    assert_eq!(targets[0].as_str(), "2.2");
}

#[test]
fn peer_count_replies_are_summed() {
    assert_eq!(merge_socket_counts(&vec![1, 2, 3]), Some(6));
    assert_eq!(merge_socket_counts(&vec![]), Some(0));
}

#[test]
fn frames_round_trip_through_the_codec() {
    let frames = vec![
        Frame::Ping,
        Frame::Pong,
        Frame::ConnectionEstablished {
            socket_id: String::from("1234.5678"),
            activity_timeout: 120,
        },
        Frame::Subscribe {
            channel: String::from("private-x"),
            auth: String::from("demo-key:abcdef"),
            channel_data: None,
        },
        Frame::Subscribe {
            channel: String::from("presence-room"),
            auth: String::from("demo-key:abcdef"),
            channel_data: Some(String::from("{\"user_id\":\"u1\",\"user_info\":{\"n\":\"a\"}}")),
        },
        Frame::Unsubscribe { channel: String::from("chat") },
        Frame::SubscriptionSucceeded {
            channel: String::from("presence-room"),
            data: String::from(
                "{\"presence\":{\"count\":1,\"ids\":[\"u1\"],\"hash\":{\"u1\":{\"n\":\"a\"}}}}",
            ),
        },
        Frame::Event {
            event: String::from("client-typing"),
            channel: String::from("private-x"),
            data: String::from("{\"who\":\"u1\"}"),
        },
        Frame::Error { code: 4009, message: String::from("subscription auth failed") },
    ];
    for frame in frames {
        let text = serialize_frame(&frame);
        let back = parse_frame(text.as_str());
        assert_eq!(back, Some(frame));
    }
}

#[test]
fn codec_escapes_quotes_and_backslashes() {
    let frame = Frame::Event {
        event: String::from("app\\event"),
        channel: String::from("chat"),
        data: String::from("say \"hi\" with a \\ backslash"),
    };
    let text = serialize_frame(&frame);
    assert_eq!(parse_frame(text.as_str()), Some(frame));
}

#[test]
fn parser_rejects_what_the_codec_never_writes() {
    assert_eq!(parse_frame(""), None);
    assert_eq!(parse_frame("{\"event\":\"pusher:ping\""), None);
    assert_eq!(parse_frame("{\"event\":\"pusher:ping\"}trailing"), None);
    assert_eq!(parse_frame("not json at all"), None);
    assert_eq!(parse_frame("{\"event\":\"pusher:error\",\"data\":{\"message\":\"m\",\"code\":}}"), None);
}

#[test]
fn canonical_ping_text() {
    assert_eq!(serialize_frame(&Frame::Ping), "{\"event\":\"pusher:ping\"}");
    assert_eq!(parse_frame("{\"event\":\"pusher:ping\"}"), Some(Frame::Ping));
    assert_eq!(parse_frame("{\"event\":\"pusher:pong\"}"), Some(Frame::Pong));
}

#[test]
fn connection_established_carries_nested_data() {
    let frame = Frame::ConnectionEstablished {
        socket_id: String::from("12.34"),
        activity_timeout: 120,
    };
    let text = serialize_frame(&frame);
    assert_eq!(
        text,
        "{\"event\":\"pusher:connection_established\",\"data\":\"{\\\"socket_id\\\":\\\"12.34\\\",\\\"activity_timeout\\\":120}\"}",
    );
    assert_eq!(parse_frame(text.as_str()), Some(frame));
}

#[test]
fn a_flushed_batch_becomes_one_signed_post() {
    let mut batcher = WebhookBatcher::new(true, 50);
    let ev = |ch: &str| WebhookEvent {
        name: String::from("channel_occupied"),
        channel: String::from(ch),
        user_id: None,
    };
    assert!(batcher.add(ev("a"), 0).is_none());
    assert!(batcher.add(ev("b"), 10).is_none());
    assert!(batcher.add(ev("c"), 20).is_none());
    let batch = batcher.flush_due(60).expect("window passed");
    let body = batch_body(1000, &batch);
    let expected = String::from("{\"time_ms\":1000,\"events\":[")
        + "{\"name\":\"channel_occupied\",\"channel\":\"a\"},"
        + "{\"name\":\"channel_occupied\",\"channel\":\"b\"},"
        + "{\"name\":\"channel_occupied\",\"channel\":\"c\"}]}";
    assert_eq!(body, expected);
    let job = make_job("http://127.0.0.1/hooks", "demo-key", "demo-secret", &body);
    // the signature is the HMAC of exactly the batched body
    assert_eq!(job.signature, body_signature("demo-secret", &body));
}

#[test]
fn event_records_carry_the_user_when_present() {
    let events = vec![WebhookEvent {
        name: String::from("member_added"),
        channel: String::from("presence-room"),
        user_id: Some(String::from("u1")),
    }];
    let body = batch_body(5, &events);
    let expected = String::from("{\"time_ms\":5,\"events\":[")
        + "{\"name\":\"member_added\",\"channel\":\"presence-room\",\"user_id\":\"u1\"}]}";
    assert_eq!(body, expected);
}

#[test]
fn heartbeats_decide_the_live_peer_set() {
    let mut peers = PeerRegistry::new();
    peers.observe_heartbeat("node-b", 1_000);
    peers.observe_heartbeat("node-c", 5_000);
    assert!(peers.is_live("node-b", 6_000, 10_000));
    // a peer silent past the timeout is dropped from the expected set
    assert!(!peers.is_live("node-b", 12_000, 10_000));
    assert!(!peers.is_live("node-x", 0, 10_000));
    let live = peers.live_peers(12_000, 10_000);
    assert_eq!(live, vec![String::from("node-c")]);
    // a fresh heartbeat revives the peer
    peers.observe_heartbeat("node-b", 12_500);
    let mut live2 = peers.live_peers(13_000, 10_000);
    live2.sort();
    assert_eq!(live2, vec![String::from("node-b"), String::from("node-c")]);
}

#[test]
fn requests_return_early_once_every_peer_replied() {
    let expected = vec![String::from("node-b"), String::from("node-c")];
    let some = vec![String::from("node-b")];
    let all = vec![String::from("node-c"), String::from("node-b")];
    assert!(!have_all_replies(&expected, &some));
    assert!(have_all_replies(&expected, &all));
    let none: Vec<String> = Vec::new();
    assert!(have_all_replies(&none, &some));
}

//! Core of a Pusher-protocol realtime pub/sub broker: channel classification,
//! per-app namespace state, the subscription state machine, HMAC auth,
//! frame codec, rate limiting, caching, and the webhook pipeline.

pub mod adapter;
pub mod api;
pub mod app;
pub mod auth;
pub mod cache;
pub mod channel;
pub mod channel_manager;
pub mod connection;
pub mod frame;
pub mod http_auth;
pub mod namespace;
pub mod presence;
pub mod queue;
pub mod rate_limiter;
pub mod text;
pub mod webhook;

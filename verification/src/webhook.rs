//! The webhook pipeline's verified half: which endpoints want an event,
//! batching of rapid events into one delivery, and the signed job handed
//! to the queue. Delivery itself is plain HTTP and stays outside.

use vstd::prelude::*;
use crate::app::Webhook;
use crate::auth::{body_signature, spec_body_signature};
use crate::channel::{spec_starts_with, starts_with};
use crate::frame::{escape_str, ser_string};
use crate::queue::JobData;
use crate::text::{dec_of, seq_has_str, u64_to_string, vec_contains_str};

verus! {

/// Longest accepted batching window, in milliseconds.
pub const BATCH_MAX_DURATION_MS: u64 = 0x100000000;

/// Highest clock value the batcher accepts; keeps deadline arithmetic
/// clear of overflow.
pub const BATCH_MAX_NOW_MS: u64 = 0x4000000000000000;

/// One lifecycle or client event on its way to a tenant.
#[derive(Debug)]
pub struct WebhookEvent {
    pub name: String,
    pub channel: String,
    pub user_id: Option<String>,
}

/// Whether this endpoint wants the event: its type is listed, and the
/// channel matches the optional name-prefix filter.
pub open spec fn spec_webhook_wants(w: Webhook, event_name: Seq<char>, channel: Seq<char>) -> bool {
    &&& seq_has_str(w.event_types@, event_name)
    &&& (match w.filter_prefix {
        Option::None => true,
        Option::Some(p) => spec_starts_with(channel, p@),
    })
}

pub fn webhook_wants(w: &Webhook, event_name: &str, channel: &str) -> (r: bool)
    ensures
        r == spec_webhook_wants(*w, event_name@, channel@),
{
    if !vec_contains_str(&w.event_types, event_name) {
        return false;
    }
    match &w.filter_prefix {
        Option::None => true,
        Option::Some(p) => starts_with(channel, p.as_str()),
    }
}

/// The signed delivery job for one webhook body: the `X-Pusher-Signature`
/// is the HMAC-SHA256 of the body under the app's secret.
pub fn make_job(url: &str, app_key: &str, secret: &str, body: &str) -> (r: JobData)
    ensures
        r.url@ == url@,
        r.app_key@ == app_key@,
        r.body@ == body@,
        r.signature@ == spec_body_signature(secret@, body@),
{
    let signature = body_signature(secret, body);
    JobData {
        url: String::from_str(url),
        app_key: String::from_str(app_key),
        signature,
        body: String::from_str(body),
    }
}

/// Collects rapid events into one delivery. With batching off, every event
/// flushes alone at once; with it on, events gather until the window that
/// opened with the first of them has passed. No event is lost, duplicated
/// or reordered.
pub struct WebhookBatcher {
    enabled: bool,
    duration_ms: u64,
    buffer: Vec<WebhookEvent>,
    deadline_ms: Option<u64>,
}

impl WebhookBatcher {
    pub closed spec fn wf(self) -> bool {
        &&& self.duration_ms <= BATCH_MAX_DURATION_MS
        &&& (self.deadline_ms is Some <==> self.buffer@.len() > 0)
        &&& (!self.enabled ==> self.buffer@.len() == 0)
    }

    pub closed spec fn spec_enabled(self) -> bool {
        self.enabled
    }

    pub closed spec fn spec_duration_ms(self) -> u64 {
        self.duration_ms
    }

    pub closed spec fn spec_buffered(self) -> Seq<WebhookEvent> {
        self.buffer@
    }

    /// The end of the open batching window: set when the first event of a
    /// batch arrives, cleared when the batch flushes.
    pub closed spec fn spec_deadline(self) -> Option<u64> {
        self.deadline_ms
    }

    /// Whether the open window (if any) has passed at `now_ms`.
    pub open spec fn spec_due(self, now_ms: u64) -> bool {
        match self.spec_deadline() {
            Option::Some(dl) => now_ms >= dl,
            Option::None => false,
        }
    }

    pub fn new(enabled: bool, duration_ms: u64) -> (r: WebhookBatcher)
        requires
            duration_ms <= BATCH_MAX_DURATION_MS,
        ensures
            r.wf(),
            r.spec_enabled() == enabled,
            r.spec_duration_ms() == duration_ms,
            r.spec_buffered() == Seq::<WebhookEvent>::empty(),
            r.spec_deadline() is None,
    {
        WebhookBatcher { enabled, duration_ms, buffer: Vec::new(), deadline_ms: Option::None }
    }

    /// Hand one event to the batcher. The result is delivered now exactly
    /// when batching is off or the window opened by the first buffered
    /// event has passed; otherwise the event joins the buffer, opening a
    /// window of `duration_ms` when it is the first.
    pub fn add(&mut self, ev: WebhookEvent, now_ms: u64) -> (r: Option<Vec<WebhookEvent>>)
        requires
            old(self).wf(),
            now_ms < BATCH_MAX_NOW_MS,
        ensures
            final(self).wf(),
            final(self).spec_enabled() == old(self).spec_enabled(),
            final(self).spec_duration_ms() == old(self).spec_duration_ms(),
            r is Some <==> (!old(self).spec_enabled() || old(self).spec_due(now_ms)),
            match r {
                Option::Some(batch) => batch@ == old(self).spec_buffered().push(ev)
                    && final(self).spec_buffered() == Seq::<WebhookEvent>::empty()
                    && final(self).spec_deadline() is None,
                Option::None => final(self).spec_buffered() == old(self).spec_buffered().push(ev)
                    && final(self).spec_deadline() == (
                if old(self).spec_buffered().len() == 0 {
                    Option::Some((now_ms + old(self).spec_duration_ms()) as u64)
                } else {
                    old(self).spec_deadline()
                }),
            },
    {
        if !self.enabled {
            let mut batch: Vec<WebhookEvent> = Vec::new();
            batch.push(ev);
            proof {
                assert(batch@ =~= self.spec_buffered().push(ev));
            }
            return Option::Some(batch);
        }
        let due = match self.deadline_ms {
            Option::Some(dl) => now_ms >= dl,
            Option::None => false,
        };
        if due {
            let mut batch: Vec<WebhookEvent> = Vec::new();
            core::mem::swap(&mut self.buffer, &mut batch);
            batch.push(ev);
            self.deadline_ms = Option::None;
            Option::Some(batch)
        } else {
            if self.buffer.len() == 0 {
                self.deadline_ms = Option::Some(now_ms + self.duration_ms);
            }
            self.buffer.push(ev);
            Option::None
        }
    }

    /// Deliver the gathered batch exactly when its window has passed.
    pub fn flush_due(&mut self, now_ms: u64) -> (r: Option<Vec<WebhookEvent>>)
        requires
            old(self).wf(),
        ensures
            final(self).wf(),
            r is Some <==> old(self).spec_due(now_ms),
            match r {
                Option::Some(batch) => batch@ == old(self).spec_buffered() && batch@.len() > 0
                    && final(self).spec_buffered() == Seq::<WebhookEvent>::empty()
                    && final(self).spec_deadline() is None && final(self).spec_enabled() == old(
                    self,
                ).spec_enabled() && final(self).spec_duration_ms() == old(self).spec_duration_ms(),
                Option::None => *final(self) == *old(self),
            },
    {
        let due = match self.deadline_ms {
            Option::Some(dl) => now_ms >= dl,
            Option::None => false,
        };
        if due {
            let mut batch: Vec<WebhookEvent> = Vec::new();
            core::mem::swap(&mut self.buffer, &mut batch);
            self.deadline_ms = Option::None;
            Option::Some(batch)
        } else {
            Option::None
        }
    }
}


/// One event record inside a webhook body.
pub open spec fn spec_event_json(e: WebhookEvent) -> Seq<char> {
    "{\"name\":\""@ + ser_string(e.name@) + ",\"channel\":\""@ + ser_string(e.channel@) + (
    match e.user_id {
        Option::None => Seq::<char>::empty(),
        Option::Some(u) => ",\"user_id\":\""@ + ser_string(u@),
    }) + "}"@
}

/// The event records of a batch, joined by commas.
pub open spec fn spec_events_json(evs: Seq<WebhookEvent>) -> Seq<char>
    decreases evs.len(),
{
    if evs.len() == 0 {
        Seq::<char>::empty()
    } else if evs.len() == 1 {
        spec_event_json(evs[0])
    } else {
        spec_events_json(evs.drop_last()) + ","@ + spec_event_json(evs.last())
    }
}

/// The body of one webhook POST: `{time_ms, events: [...]}`.
pub open spec fn spec_batch_body(time_ms: u64, evs: Seq<WebhookEvent>) -> Seq<char> {
    "{\"time_ms\":"@ + dec_of(time_ms as nat) + ",\"events\":["@ + spec_events_json(evs)
        + "]}"@
}

fn event_json(e: &WebhookEvent) -> (r: String)
    ensures
        r@ == spec_event_json(*e),
{
    let mut r = String::from_str("{\"name\":\"");
    r.append(escape_str(e.name.as_str()).as_str());
    r.append("\",\"channel\":\"");
    r.append(escape_str(e.channel.as_str()).as_str());
    match &e.user_id {
        Option::None => {},
        Option::Some(u) => {
            r.append("\",\"user_id\":\"");
            r.append(escape_str(u.as_str()).as_str());
        },
    }
    r.append("\"}");
    proof {
        reveal_strlit("\",\"channel\":\"");
        reveal_strlit(",\"channel\":\"");
        reveal_strlit("\",\"user_id\":\"");
        reveal_strlit(",\"user_id\":\"");
        reveal_strlit("\"}");
        reveal_strlit("}");
        assert("\",\"channel\":\""@ =~= seq!['"'] + ",\"channel\":\""@);
        assert("\",\"user_id\":\""@ =~= seq!['"'] + ",\"user_id\":\""@);
        assert("\"}"@ =~= seq!['"'] + "}"@);
        assert(r@ =~= spec_event_json(*e));
    }
    r
}

/// Render a batch as the body of one webhook POST.
pub fn batch_body(time_ms: u64, events: &Vec<WebhookEvent>) -> (r: String)
    ensures
        r@ == spec_batch_body(time_ms, events@),
{
    let mut r = String::from_str("{\"time_ms\":");
    r.append(u64_to_string(time_ms).as_str());
    r.append(",\"events\":[");
    let n = events.len();
    let mut i: usize = 0;
    while i < n
        invariant
            i <= n,
            n == events@.len(),
            r@ == "{\"time_ms\":"@ + dec_of(time_ms as nat) + ",\"events\":["@
                + spec_events_json(events@.subrange(0, i as int)),
        decreases n - i,
    {
        if i > 0 {
            r.append(",");
        }
        r.append(event_json(&events[i]).as_str());
        proof {
            let pre = events@.subrange(0, i as int);
            let cur = events@.subrange(0, i + 1);
            assert(cur.drop_last() =~= pre);
            assert(cur.last() == events@[i as int]);
            if i == 0 {
                assert(spec_events_json(cur) == spec_event_json(events@[0]));
            }
        }
        i += 1;
    }
    r.append("]}");
    proof {
        assert(events@.subrange(0, n as int) =~= events@);
    }
    r
}

} // verus!

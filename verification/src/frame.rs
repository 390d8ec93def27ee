//! The wire frames of the protocol and their codec: every frame serializes
//! to one canonical JSON text, and parsing that text yields the frame back
//! unchanged.

use vstd::prelude::*;
use crate::text::{is_digit, dec_of, val_of, all_digits, u64_to_string, parse_u64, str_eq,
    lemma_dec_of_round_trip};

verus! {

/// JSON string escaping, quote and backslash only; frames may not carry
/// control characters.
pub open spec fn esc_char(c: char) -> Seq<char> {
    if c == '"' {
        seq!['\\', '"']
    } else if c == '\\' {
        seq!['\\', '\\']
    } else {
        seq![c]
    }
}

pub open spec fn escape(s: Seq<char>) -> Seq<char>
    decreases s.len(),
{
    if s.len() == 0 {
        Seq::<char>::empty()
    } else {
        esc_char(s[0]) + escape(s.drop_first())
    }
}

/// Decode an escaped string up to its closing quote; what follows the
/// quote is handed back.
pub open spec fn spec_unescape_scan(s: Seq<char>) -> Option<(Seq<char>, Seq<char>)>
    decreases s.len(),
{
    if s.len() == 0 {
        Option::None
    } else if s[0] == '"' {
        Option::Some((Seq::<char>::empty(), s.skip(1)))
    } else if s[0] == '\\' {
        if s.len() >= 2 && (s[1] == '"' || s[1] == '\\') {
            match spec_unescape_scan(s.skip(2)) {
                Option::Some((d, r)) => Option::Some((seq![s[1]] + d, r)),
                Option::None => Option::None,
            }
        } else {
            Option::None
        }
    } else {
        match spec_unescape_scan(s.skip(1)) {
            Option::Some((d, r)) => Option::Some((seq![s[0]] + d, r)),
            Option::None => Option::None,
        }
    }
}

/// No control characters: what the codec's strings must satisfy.
pub open spec fn no_controls(s: Seq<char>) -> bool {
    forall|i: int| 0 <= i < s.len() ==> (s[i] as int) >= 0x20
}

/// Scanning the escaped text of `u` followed by its closing quote yields
/// `u` and the rest untouched.
pub proof fn lemma_unescape_escape(u: Seq<char>, rest: Seq<char>)
    ensures
        spec_unescape_scan(escape(u) + seq!['"'] + rest) == Option::Some((u, rest)),
    decreases u.len(),
{
    let s = escape(u) + seq!['"'] + rest;
    if u.len() == 0 {
        assert(escape(u) =~= Seq::<char>::empty());
        assert(s[0] == '"');
        assert(s.skip(1) =~= rest);
    } else {
        let c = u[0];
        lemma_unescape_escape(u.drop_first(), rest);
        let tail = escape(u.drop_first()) + seq!['"'] + rest;
        if c == '"' || c == '\\' {
            assert(esc_char(c).len() == 2);
            assert(s[0] == '\\');
            assert(s[1] == c);
            assert(s.skip(2) =~= tail);
            assert(s.len() >= 2);
            assert(seq![c] + u.drop_first() =~= u);
        } else {
            assert(esc_char(c) =~= seq![c]);
            assert(s[0] == c);
            assert(c != '"' && c != '\\');
            assert(s.skip(1) =~= tail);
            assert(seq![c] + u.drop_first() =~= u);
        }
    }
}

/// Relies on `String::push`: appends exactly one character.
#[verifier::external_body]
fn push_char(s: &mut String, c: char)
    ensures
        final(s)@ == old(s)@.push(c),
{
    s.push(c);
}

/// Escape a string for embedding as a JSON string value.
pub fn escape_str(s: &str) -> (r: String)
    ensures
        r@ == escape(s@),
{
    let mut r = String::new();
    let n = s.unicode_len();
    let mut i: usize = 0;
    proof {
        assert(s@.skip(0) =~= s@);
    }
    while i < n
        invariant
            i <= n,
            n == s@.len(),
            escape(s@) =~= r@ + escape(s@.skip(i as int)),
        decreases n - i,
    {
        let c = s.get_char(i);
        proof {
            assert(s@.skip(i as int)[0] == s@[i as int]);
            assert(s@.skip(i as int).drop_first() =~= s@.skip(i + 1));
        }
        let ghost r_pre = r@;
        if c == '"' {
            push_char(&mut r, '\\');
            push_char(&mut r, '"');
        } else if c == '\\' {
            push_char(&mut r, '\\');
            push_char(&mut r, '\\');
        } else {
            push_char(&mut r, c);
        }
        proof {
            assert(r@ =~= r_pre + esc_char(c));
            assert(escape(s@) =~= r@ + escape(s@.skip(i + 1))) by {
                assert(escape(s@.skip(i as int)) =~= esc_char(c) + escape(s@.skip(i + 1)));
                assert(r_pre + (esc_char(c) + escape(s@.skip(i + 1))) =~= (r_pre + esc_char(c))
                    + escape(s@.skip(i + 1)));
            }
        }
        i += 1;
    }
    proof {
        assert(escape(s@.skip(n as int)) =~= Seq::<char>::empty());
        assert(escape(s@) =~= r@);
    }
    r
}

/// Decode an escaped string starting at `from`, stopping at the closing
/// quote; hands back the decoded text and the index after the quote.
pub fn scan_string(s: &str, from: usize) -> (r: Option<(String, usize)>)
    requires
        from <= s@.len(),
    ensures
        match r {
            Option::Some(p) => from <= p.1 <= s@.len() && spec_unescape_scan(s@.skip(from as int))
                == Option::Some((p.0@, s@.skip(p.1 as int))),
            Option::None => spec_unescape_scan(s@.skip(from as int)) is None,
        },
{
    let n = s.unicode_len();
    let mut out = String::new();
    let mut i: usize = from;
    while i < n
        invariant
            from <= i <= n,
            n == s@.len(),
            spec_unescape_scan(s@.skip(from as int)) == (match spec_unescape_scan(
                s@.skip(i as int),
            ) {
                Option::Some((d, r2)) => Option::Some((out@ + d, r2)),
                Option::None => Option::<(Seq<char>, Seq<char>)>::None,
            }),
        decreases n - i,
    {
        let c = s.get_char(i);
        proof {
            assert(s@.skip(i as int)[0] == s@[i as int]);
        }
        if c == '"' {
            proof {
                assert(s@.skip(i as int).skip(1) =~= s@.skip(i + 1));
                assert(spec_unescape_scan(s@.skip(i as int)) == Option::Some((
                    Seq::<char>::empty(),
                    s@.skip(i + 1),
                )));
                assert(out@ + Seq::<char>::empty() =~= out@);
            }
            return Option::Some((out, i + 1));
        } else if c == '\\' {
            if i + 1 >= n {
                proof {
                    assert(s@.skip(i as int).len() < 2);
                }
                return Option::None;
            }
            let c2 = s.get_char(i + 1);
            proof {
                assert(s@.skip(i as int)[1] == s@[i + 1]);
            }
            if c2 == '"' || c2 == '\\' {
                let ghost out_pre = out@;
                push_char(&mut out, c2);
                proof {
                    assert(s@.skip(i as int).skip(2) =~= s@.skip(i + 2));
                    let tail = spec_unescape_scan(s@.skip(i + 2));
                    match tail {
                        Option::Some((d, r2)) => {
                            assert(spec_unescape_scan(s@.skip(i as int)) == Option::Some((
                                seq![s@[i + 1]] + d,
                                r2,
                            )));
                            assert(out@ + d =~= out_pre + (seq![s@[i + 1]] + d));
                        },
                        Option::None => {
                            assert(spec_unescape_scan(s@.skip(i as int)) is None);
                        },
                    }
                }
                i = i + 2;
            } else {
                return Option::None;
            }
        } else {
            let ghost out_pre = out@;
            push_char(&mut out, c);
            proof {
                assert(s@.skip(i as int).skip(1) =~= s@.skip(i + 1));
                let tail = spec_unescape_scan(s@.skip(i + 1));
                match tail {
                    Option::Some((d, r2)) => {
                        assert(spec_unescape_scan(s@.skip(i as int)) == Option::Some((
                            seq![s@[i as int]] + d,
                            r2,
                        )));
                        assert(out@ + d =~= out_pre + (seq![s@[i as int]] + d));
                    },
                    Option::None => {
                        assert(spec_unescape_scan(s@.skip(i as int)) is None);
                    },
                }
            }
            i = i + 1;
        }
    }
    proof {
        assert(s@.skip(i as int).len() == 0);
    }
    Option::None
}

/// How many leading characters of `s` are decimal digits.
pub open spec fn digits_len(s: Seq<char>) -> nat
    decreases s.len(),
{
    if s.len() == 0 || !is_digit(s[0]) {
        0
    } else {
        1 + digits_len(s.drop_first())
    }
}

/// Read a decimal number off the front of `s`; fails on no digits or a
/// value beyond `u64`.
pub open spec fn spec_scan_u64(s: Seq<char>) -> Option<(u64, Seq<char>)> {
    if digits_len(s) == 0 {
        Option::None
    } else if val_of(s.take(digits_len(s) as int)) > u64::MAX {
        Option::None
    } else {
        Option::Some(
            (val_of(s.take(digits_len(s) as int)) as u64, s.skip(digits_len(s) as int)),
        )
    }
}

proof fn lemma_digits_len_concat(d: Seq<char>, rest: Seq<char>)
    requires
        all_digits(d),
        rest.len() > 0,
        !is_digit(rest[0]),
    ensures
        digits_len(d + rest) == d.len(),
    decreases d.len(),
{
    if d.len() == 0 {
        assert(d + rest =~= rest);
    } else {
        assert((d + rest)[0] == d[0]);
        assert((d + rest).drop_first() =~= d.drop_first() + rest);
        lemma_digits_len_concat(d.drop_first(), rest);
    }
}

/// Reading back the decimal text of `n` recovers `n` and the rest.
pub proof fn lemma_scan_u64_round_trip(n: u64, rest: Seq<char>)
    requires
        rest.len() > 0,
        !is_digit(rest[0]),
    ensures
        spec_scan_u64(dec_of(n as nat) + rest) == Option::Some((n, rest)),
{
    lemma_dec_of_round_trip(n as nat);
    lemma_digits_len_concat(dec_of(n as nat), rest);
    let s = dec_of(n as nat) + rest;
    assert(s.take(dec_of(n as nat).len() as int) =~= dec_of(n as nat));
    assert(s.skip(dec_of(n as nat).len() as int) =~= rest);
}

/// The end of the run of digits starting at `from`.
fn digits_end(s: &str, from: usize) -> (end: usize)
    requires
        from <= s@.len(),
    ensures
        from <= end <= s@.len(),
        all_digits(s@.subrange(from as int, end as int)),
        digits_len(s@.skip(from as int)) == end - from,
{
    let n = s.unicode_len();
    let mut end: usize = from;
    while end < n
        invariant
            from <= end <= n,
            n == s@.len(),
            all_digits(s@.subrange(from as int, end as int)),
            digits_len(s@.skip(from as int)) == end - from + digits_len(s@.skip(end as int)),
        decreases n - end,
    {
        let c = s.get_char(end);
        proof {
            assert(s@.skip(end as int)[0] == s@[end as int]);
        }
        if !(c >= '0' && c <= '9') {
            proof {
                assert(!is_digit(s@.skip(end as int)[0]));
                assert(digits_len(s@.skip(end as int)) == 0);
            }
            return end;
        }
        proof {
            assert(s@.skip(end as int).drop_first() =~= s@.skip(end + 1));
            assert(s@.subrange(from as int, end + 1).drop_last() =~= s@.subrange(
                from as int,
                end as int,
            ));
            assert forall|j: int|
                0 <= j < s@.subrange(from as int, end + 1).len() implies is_digit(
                #[trigger] s@.subrange(from as int, end + 1)[j],
            ) by {
                if j < end - from {
                    assert(s@.subrange(from as int, end as int)[j] == s@.subrange(
                        from as int,
                        end + 1,
                    )[j]);
                }
            }
        }
        end = end + 1;
    }
    proof {
        assert(s@.skip(end as int).len() == 0);
        assert(digits_len(s@.skip(end as int)) == 0);
    }
    end
}

/// Read a decimal number at `from`.
pub fn scan_u64(s: &str, from: usize) -> (r: Option<(u64, usize)>)
    requires
        from <= s@.len(),
    ensures
        match r {
            Option::Some(p) => from <= p.1 <= s@.len() && spec_scan_u64(s@.skip(from as int))
                == Option::Some((p.0, s@.skip(p.1 as int))),
            Option::None => spec_scan_u64(s@.skip(from as int)) is None,
        },
{
    let n = s.unicode_len();
    let end = digits_end(s, from);
    proof {
        assert(s@.skip(from as int).take(end - from) =~= s@.subrange(from as int, end as int));
        assert(s@.skip(from as int).skip(end - from) =~= s@.skip(end as int));
    }
    if end == from {
        return Option::None;
    }
    let digits = s.substring_char(from, end);
    proof {
        assert(digits@ == s@.subrange(from as int, end as int));
    }
    match parse_u64(digits) {
        Option::Some(v) => Option::Some((v, end)),
        Option::None => Option::None,
    }
}

/// Match the literal `lit` at `from`; hands back the index after it.
pub fn expect_lit(s: &str, from: usize, lit: &str) -> (r: Option<usize>)
    requires
        from <= s@.len(),
    ensures
        match r {
            Option::Some(next) => next == from + lit@.len() && next <= s@.len() && s@.subrange(
                from as int,
                next as int,
            ) == lit@,
            Option::None => !(from + lit@.len() <= s@.len() && s@.subrange(
                from as int,
                from + lit@.len(),
            ) == lit@),
        },
{
    let n = s.unicode_len();
    let m = lit.unicode_len();
    if n - from < m {
        return Option::None;
    }
    let mut i: usize = 0;
    while i < m
        invariant
            i <= m,
            from + m <= n,
            n == s@.len(),
            m == lit@.len(),
            forall|j: int| 0 <= j < i ==> s@[from + j] == lit@[j],
        decreases m - i,
    {
        if s.get_char(from + i) != lit.get_char(i) {
            proof {
                assert(s@.subrange(from as int, from + lit@.len())[i as int] != lit@[i as int]);
            }
            return Option::None;
        }
        i += 1;
    }
    proof {
        assert(s@.subrange(from as int, from + m as int) =~= lit@);
    }
    Option::Some(from + m)
}


/// A protocol frame, as spec-level data.
pub enum FrameView {
    Ping,
    Pong,
    ConnectionEstablished { socket_id: Seq<char>, activity_timeout: u64 },
    Subscribe { channel: Seq<char>, auth: Seq<char>, channel_data: Option<Seq<char>> },
    Unsubscribe { channel: Seq<char> },
    SubscriptionSucceeded { channel: Seq<char>, data: Seq<char> },
    Event { event: Seq<char>, channel: Seq<char>, data: Seq<char> },
    Error { code: u64, message: Seq<char> },
}

/// A protocol frame.
#[derive(Debug, Clone, PartialEq)]
pub enum Frame {
    Ping,
    Pong,
    ConnectionEstablished { socket_id: String, activity_timeout: u64 },
    Subscribe { channel: String, auth: String, channel_data: Option<String> },
    Unsubscribe { channel: String },
    SubscriptionSucceeded { channel: String, data: String },
    Event { event: String, channel: String, data: String },
    Error { code: u64, message: String },
}

impl View for Frame {
    type V = FrameView;

    open spec fn view(&self) -> FrameView {
        match self {
            Frame::Ping => FrameView::Ping,
            Frame::Pong => FrameView::Pong,
            Frame::ConnectionEstablished { socket_id, activity_timeout } =>
                FrameView::ConnectionEstablished {
                socket_id: socket_id@,
                activity_timeout: *activity_timeout,
            },
            Frame::Subscribe { channel, auth, channel_data } => FrameView::Subscribe {
                channel: channel@,
                auth: auth@,
                channel_data: match channel_data {
                    Option::None => Option::None,
                    Option::Some(cd) => Option::Some(cd@),
                },
            },
            Frame::Unsubscribe { channel } => FrameView::Unsubscribe { channel: channel@ },
            Frame::SubscriptionSucceeded { channel, data } => FrameView::SubscriptionSucceeded {
                channel: channel@,
                data: data@,
            },
            Frame::Event { event, channel, data } => FrameView::Event {
                event: event@,
                channel: channel@,
                data: data@,
            },
            Frame::Error { code, message } => FrameView::Error {
                code: *code,
                message: message@,
            },
        }
    }
}

/// The event names the protocol reserves for its own frames.
pub open spec fn reserved_event(ev: Seq<char>) -> bool {
    ||| ev == "pusher:ping"@
    ||| ev == "pusher:pong"@
    ||| ev == "pusher:connection_established"@
    ||| ev == "pusher:subscribe"@
    ||| ev == "pusher:unsubscribe"@
    ||| ev == "pusher_internal:subscription_succeeded"@
    ||| ev == "pusher:error"@
}

/// A frame the codec accepts: no control characters in any string, and a
/// generic event does not shadow a reserved name.
pub open spec fn wf_frame(v: FrameView) -> bool {
    match v {
        FrameView::Ping => true,
        FrameView::Pong => true,
        FrameView::ConnectionEstablished { socket_id, .. } => no_controls(socket_id),
        FrameView::Subscribe { channel, auth, channel_data } => no_controls(channel)
            && no_controls(auth) && (match channel_data {
            Option::None => true,
            Option::Some(cd) => no_controls(cd),
        }),
        FrameView::Unsubscribe { channel } => no_controls(channel),
        FrameView::SubscriptionSucceeded { channel, data } => no_controls(channel) && no_controls(
            data,
        ),
        FrameView::Event { event, channel, data } => no_controls(event) && no_controls(channel)
            && no_controls(data) && !reserved_event(event),
        FrameView::Error { message, .. } => no_controls(message),
    }
}

/// A JSON string value: the escaped text and its closing quote.
pub open spec fn ser_string(u: Seq<char>) -> Seq<char> {
    escape(u) + seq!['"']
}

/// The `data` text of a connection-established frame, itself JSON.
pub open spec fn established_inner(sid: Seq<char>, t: u64) -> Seq<char> {
    "{\"socket_id\":\""@ + ser_string(sid) + ",\"activity_timeout\":"@ + dec_of(t as nat) + "}"@
}

/// The canonical wire text of a frame.
pub open spec fn spec_serialize(v: FrameView) -> Seq<char> {
    "{\"event\":\""@ + (match v {
        FrameView::Ping => ser_string("pusher:ping"@) + "}"@,
        FrameView::Pong => ser_string("pusher:pong"@) + "}"@,
        FrameView::ConnectionEstablished { socket_id, activity_timeout } => ser_string(
            "pusher:connection_established"@,
        ) + ",\"data\":\""@ + ser_string(established_inner(socket_id, activity_timeout)) + "}"@,
        FrameView::Subscribe { channel, auth, channel_data } => ser_string("pusher:subscribe"@)
            + ",\"data\":{\"channel\":\""@ + ser_string(channel) + ",\"auth\":\""@ + ser_string(
            auth,
        ) + (match channel_data {
            Option::None => Seq::<char>::empty(),
            Option::Some(cd) => ",\"channel_data\":\""@ + ser_string(cd),
        }) + "}}"@,
        FrameView::Unsubscribe { channel } => ser_string("pusher:unsubscribe"@)
            + ",\"data\":{\"channel\":\""@ + ser_string(channel) + "}}"@,
        FrameView::SubscriptionSucceeded { channel, data } => ser_string(
            "pusher_internal:subscription_succeeded"@,
        ) + ",\"channel\":\""@ + ser_string(channel) + ",\"data\":\""@ + ser_string(data) + "}"@,
        FrameView::Event { event, channel, data } => ser_string(event) + ",\"channel\":\""@
            + ser_string(channel) + ",\"data\":\""@ + ser_string(data) + "}"@,
        FrameView::Error { code, message } => ser_string("pusher:error"@)
            + ",\"data\":{\"message\":\""@ + ser_string(message) + ",\"code\":"@ + dec_of(
            code as nat,
        ) + "}}"@,
    })
}

pub open spec fn begins(s: Seq<char>, lit: Seq<char>) -> bool {
    s.len() >= lit.len() && s.take(lit.len() as int) == lit
}

pub open spec fn after(s: Seq<char>, lit: Seq<char>) -> Seq<char> {
    s.skip(lit.len() as int)
}

/// Parse the channel-and-data tail shared by subscription-succeeded and
/// generic event frames.
pub open spec fn spec_parse_chan_data(r: Seq<char>) -> Option<(Seq<char>, Seq<char>)> {
    if !begins(r, ",\"channel\":\""@) {
        Option::None
    } else {
        match spec_unescape_scan(after(r, ",\"channel\":\""@)) {
            Option::None => Option::None,
            Option::Some((ch, r2)) => if !begins(r2, ",\"data\":\""@) {
                Option::None
            } else {
                match spec_unescape_scan(after(r2, ",\"data\":\""@)) {
                    Option::None => Option::None,
                    Option::Some((d, r3)) => if r3 == "}"@ {
                        Option::Some((ch, d))
                    } else {
                        Option::None
                    },
                }
            },
        }
    }
}

/// Parse the JSON text inside a connection-established `data` string.
pub open spec fn spec_parse_established(inner: Seq<char>) -> Option<FrameView> {
    if !begins(inner, "{\"socket_id\":\""@) {
        Option::None
    } else {
        match spec_unescape_scan(after(inner, "{\"socket_id\":\""@)) {
            Option::None => Option::None,
            Option::Some((sid, r)) => if !begins(r, ",\"activity_timeout\":"@) {
                Option::None
            } else {
                match spec_scan_u64(after(r, ",\"activity_timeout\":"@)) {
                    Option::None => Option::None,
                    Option::Some((t, r2)) => if r2 == "}"@ {
                        Option::Some(
                            FrameView::ConnectionEstablished {
                                socket_id: sid,
                                activity_timeout: t,
                            },
                        )
                    } else {
                        Option::None
                    },
                }
            },
        }
    }
}

/// Parse what follows the event name.
pub open spec fn spec_parse_body(ev: Seq<char>, r: Seq<char>) -> Option<FrameView> {
    if ev == "pusher:ping"@ {
        if r == "}"@ {
            Option::Some(FrameView::Ping)
        } else {
            Option::None
        }
    } else if ev == "pusher:pong"@ {
        if r == "}"@ {
            Option::Some(FrameView::Pong)
        } else {
            Option::None
        }
    } else if ev == "pusher:connection_established"@ {
        if !begins(r, ",\"data\":\""@) {
            Option::None
        } else {
            match spec_unescape_scan(after(r, ",\"data\":\""@)) {
                Option::None => Option::None,
                Option::Some((inner, r2)) => if r2 == "}"@ {
                    spec_parse_established(inner)
                } else {
                    Option::None
                },
            }
        }
    } else if ev == "pusher:subscribe"@ {
        if !begins(r, ",\"data\":{\"channel\":\""@) {
            Option::None
        } else {
            match spec_unescape_scan(after(r, ",\"data\":{\"channel\":\""@)) {
                Option::None => Option::None,
                Option::Some((ch, r2)) => if !begins(r2, ",\"auth\":\""@) {
                    Option::None
                } else {
                    match spec_unescape_scan(after(r2, ",\"auth\":\""@)) {
                        Option::None => Option::None,
                        Option::Some((auth, r3)) => if r3 == "}}"@ {
                            Option::Some(
                                FrameView::Subscribe {
                                    channel: ch,
                                    auth,
                                    channel_data: Option::None,
                                },
                            )
                        } else if begins(r3, ",\"channel_data\":\""@) {
                            match spec_unescape_scan(after(r3, ",\"channel_data\":\""@)) {
                                Option::None => Option::None,
                                Option::Some((cd, r4)) => if r4 == "}}"@ {
                                    Option::Some(
                                        FrameView::Subscribe {
                                            channel: ch,
                                            auth,
                                            channel_data: Option::Some(cd),
                                        },
                                    )
                                } else {
                                    Option::None
                                },
                            }
                        } else {
                            Option::None
                        },
                    }
                },
            }
        }
    } else if ev == "pusher:unsubscribe"@ {
        if !begins(r, ",\"data\":{\"channel\":\""@) {
            Option::None
        } else {
            match spec_unescape_scan(after(r, ",\"data\":{\"channel\":\""@)) {
                Option::None => Option::None,
                Option::Some((ch, r2)) => if r2 == "}}"@ {
                    Option::Some(FrameView::Unsubscribe { channel: ch })
                } else {
                    Option::None
                },
            }
        }
    } else if ev == "pusher:error"@ {
        if !begins(r, ",\"data\":{\"message\":\""@) {
            Option::None
        } else {
            match spec_unescape_scan(after(r, ",\"data\":{\"message\":\""@)) {
                Option::None => Option::None,
                Option::Some((msg, r2)) => if !begins(r2, ",\"code\":"@) {
                    Option::None
                } else {
                    match spec_scan_u64(after(r2, ",\"code\":"@)) {
                        Option::None => Option::None,
                        Option::Some((code, r3)) => if r3 == "}}"@ {
                            Option::Some(FrameView::Error { code, message: msg })
                        } else {
                            Option::None
                        },
                    }
                },
            }
        }
    } else if ev == "pusher_internal:subscription_succeeded"@ {
        match spec_parse_chan_data(r) {
            Option::None => Option::None,
            Option::Some((ch, d)) => Option::Some(
                FrameView::SubscriptionSucceeded { channel: ch, data: d },
            ),
        }
    } else {
        match spec_parse_chan_data(r) {
            Option::None => Option::None,
            Option::Some((ch, d)) => Option::Some(
                FrameView::Event { event: ev, channel: ch, data: d },
            ),
        }
    }
}

/// Parse one canonical frame text.
pub open spec fn spec_parse(s: Seq<char>) -> Option<FrameView> {
    if !begins(s, "{\"event\":\""@) {
        Option::None
    } else {
        match spec_unescape_scan(after(s, "{\"event\":\""@)) {
            Option::None => Option::None,
            Option::Some((ev, r)) => spec_parse_body(ev, r),
        }
    }
}

proof fn lemma_begins_after(lit: Seq<char>, tail: Seq<char>)
    ensures
        begins(lit + tail, lit),
        after(lit + tail, lit) == tail,
{
    assert((lit + tail).take(lit.len() as int) =~= lit);
    assert((lit + tail).skip(lit.len() as int) =~= tail);
}

/// Parsing the serialized text of an accepted frame yields the frame back:
/// the codec round-trips.
#[verifier::rlimit(100)]
#[verifier::spinoff_prover]
pub proof fn lemma_serialize_parse_round_trip(v: FrameView)
    requires
        wf_frame(v),
    ensures
        spec_parse(spec_serialize(v)) == Option::Some(v),
{
    reveal_strlit("pusher:ping");
    reveal_strlit("pusher:pong");
    reveal_strlit("pusher:connection_established");
    reveal_strlit("pusher:subscribe");
    reveal_strlit("pusher:unsubscribe");
    reveal_strlit("pusher_internal:subscription_succeeded");
    reveal_strlit("pusher:error");
    reveal_strlit("}");
    reveal_strlit("}}");
    assert("pusher:ping"@[8] != "pusher:pong"@[8]);
    assert("pusher:ping"@ != "pusher:pong"@);
    let head = "{\"event\":\""@;
    let s = spec_serialize(v);
    match v {
        FrameView::Ping => {
            let tail = ser_string("pusher:ping"@) + "}"@;
            assert(s =~= head + tail);
            lemma_begins_after(head, tail);
            assert(tail =~= escape("pusher:ping"@) + seq!['"'] + "}"@);
            lemma_unescape_escape("pusher:ping"@, "}"@);
        },
        FrameView::Pong => {
            let tail = ser_string("pusher:pong"@) + "}"@;
            assert(s =~= head + tail);
            lemma_begins_after(head, tail);
            assert(tail =~= escape("pusher:pong"@) + seq!['"'] + "}"@);
            lemma_unescape_escape("pusher:pong"@, "}"@);
        },
        FrameView::ConnectionEstablished { socket_id, activity_timeout } => {
            let inner = established_inner(socket_id, activity_timeout);
            let r = ",\"data\":\""@ + ser_string(inner) + "}"@;
            let tail = ser_string("pusher:connection_established"@) + r;
            assert(s =~= head + tail);
            lemma_begins_after(head, tail);
            assert(tail =~= escape("pusher:connection_established"@) + seq!['"'] + r);
            lemma_unescape_escape("pusher:connection_established"@, r);
            // the frame body
            let r1 = ser_string(inner) + "}"@;
            lemma_begins_after(",\"data\":\""@, r1);
            assert(r =~= ",\"data\":\""@ + r1);
            assert(r1 =~= escape(inner) + seq!['"'] + "}"@);
            lemma_unescape_escape(inner, "}"@);
            // the inner text
            let r2 = ser_string(socket_id) + ",\"activity_timeout\":"@ + dec_of(
                activity_timeout as nat,
            ) + "}"@;
            assert(inner =~= "{\"socket_id\":\""@ + r2);
            lemma_begins_after("{\"socket_id\":\""@, r2);
            let r3 = ",\"activity_timeout\":"@ + dec_of(activity_timeout as nat) + "}"@;
            assert(r2 =~= escape(socket_id) + seq!['"'] + r3);
            lemma_unescape_escape(socket_id, r3);
            let r4 = dec_of(activity_timeout as nat) + "}"@;
            lemma_begins_after(",\"activity_timeout\":"@, r4);
            assert(r3 =~= ",\"activity_timeout\":"@ + r4);
            assert(!is_digit("}"@[0]));
            lemma_scan_u64_round_trip(activity_timeout, "}"@);
        },
        FrameView::Subscribe { channel, auth, channel_data } => {
            let cdpart = match channel_data {
                Option::None => Seq::<char>::empty(),
                Option::Some(cd) => ",\"channel_data\":\""@ + ser_string(cd),
            };
            let r = ",\"data\":{\"channel\":\""@ + ser_string(channel) + ",\"auth\":\""@
                + ser_string(auth) + cdpart + "}}"@;
            let tail = ser_string("pusher:subscribe"@) + r;
            assert(s =~= head + tail);
            lemma_begins_after(head, tail);
            assert(tail =~= escape("pusher:subscribe"@) + seq!['"'] + r);
            lemma_unescape_escape("pusher:subscribe"@, r);
            let r1 = ser_string(channel) + ",\"auth\":\""@ + ser_string(auth) + cdpart + "}}"@;
            assert(r =~= ",\"data\":{\"channel\":\""@ + r1);
            lemma_begins_after(",\"data\":{\"channel\":\""@, r1);
            let r2 = ",\"auth\":\""@ + ser_string(auth) + cdpart + "}}"@;
            assert(r1 =~= escape(channel) + seq!['"'] + r2);
            lemma_unescape_escape(channel, r2);
            let r3 = ser_string(auth) + cdpart + "}}"@;
            assert(r2 =~= ",\"auth\":\""@ + r3);
            lemma_begins_after(",\"auth\":\""@, r3);
            let r4 = cdpart + "}}"@;
            assert(r3 =~= escape(auth) + seq!['"'] + r4);
            lemma_unescape_escape(auth, r4);
            match channel_data {
                Option::None => {
                    assert(r4 =~= "}}"@);
                },
                Option::Some(cd) => {
                    reveal_strlit(",\"channel_data\":\"");
                    assert(r4.len() >= 2);
                    assert(r4[0] == ',');
                    assert("}}"@[0] == '}');
                    assert(r4 != "}}"@);
                    let r5 = ser_string(cd) + "}}"@;
                    assert(r4 =~= ",\"channel_data\":\""@ + r5);
                    lemma_begins_after(",\"channel_data\":\""@, r5);
                    assert(r5 =~= escape(cd) + seq!['"'] + "}}"@);
                    lemma_unescape_escape(cd, "}}"@);
                },
            }
        },
        FrameView::Unsubscribe { channel } => {
            let r = ",\"data\":{\"channel\":\""@ + ser_string(channel) + "}}"@;
            let tail = ser_string("pusher:unsubscribe"@) + r;
            assert(s =~= head + tail);
            lemma_begins_after(head, tail);
            assert(tail =~= escape("pusher:unsubscribe"@) + seq!['"'] + r);
            lemma_unescape_escape("pusher:unsubscribe"@, r);
            let r1 = ser_string(channel) + "}}"@;
            assert(r =~= ",\"data\":{\"channel\":\""@ + r1);
            lemma_begins_after(",\"data\":{\"channel\":\""@, r1);
            assert(r1 =~= escape(channel) + seq!['"'] + "}}"@);
            lemma_unescape_escape(channel, "}}"@);
        },
        FrameView::SubscriptionSucceeded { channel, data } => {
            let r = ",\"channel\":\""@ + ser_string(channel) + ",\"data\":\""@ + ser_string(data)
                + "}"@;
            let tail = ser_string("pusher_internal:subscription_succeeded"@) + r;
            assert(s =~= head + tail);
            lemma_begins_after(head, tail);
            assert(tail =~= escape("pusher_internal:subscription_succeeded"@) + seq!['"'] + r);
            lemma_unescape_escape("pusher_internal:subscription_succeeded"@, r);
            lemma_parse_chan_data(channel, data);
        },
        FrameView::Event { event, channel, data } => {
            let r = ",\"channel\":\""@ + ser_string(channel) + ",\"data\":\""@ + ser_string(data)
                + "}"@;
            let tail = ser_string(event) + r;
            assert(s =~= head + tail);
            lemma_begins_after(head, tail);
            assert(tail =~= escape(event) + seq!['"'] + r);
            lemma_unescape_escape(event, r);
            lemma_parse_chan_data(channel, data);
        },
        FrameView::Error { code, message } => {
            let r = ",\"data\":{\"message\":\""@ + ser_string(message) + ",\"code\":"@ + dec_of(
                code as nat,
            ) + "}}"@;
            let tail = ser_string("pusher:error"@) + r;
            assert(s =~= head + tail);
            lemma_begins_after(head, tail);
            assert(tail =~= escape("pusher:error"@) + seq!['"'] + r);
            lemma_unescape_escape("pusher:error"@, r);
            let r1 = ser_string(message) + ",\"code\":"@ + dec_of(code as nat) + "}}"@;
            assert(r =~= ",\"data\":{\"message\":\""@ + r1);
            lemma_begins_after(",\"data\":{\"message\":\""@, r1);
            let r2 = ",\"code\":"@ + dec_of(code as nat) + "}}"@;
            assert(r1 =~= escape(message) + seq!['"'] + r2);
            lemma_unescape_escape(message, r2);
            let r3 = dec_of(code as nat) + "}}"@;
            assert(r2 =~= ",\"code\":"@ + r3);
            lemma_begins_after(",\"code\":"@, r3);
            assert(!is_digit("}}"@[0]));
            lemma_scan_u64_round_trip(code, "}}"@);
        },
    }
}

/// The shared channel-and-data tail parses back to its two strings.
proof fn lemma_parse_chan_data(channel: Seq<char>, data: Seq<char>)
    ensures
        spec_parse_chan_data(
            ",\"channel\":\""@ + ser_string(channel) + ",\"data\":\""@ + ser_string(data) + "}"@,
        ) == Option::Some((channel, data)),
{
    let r = ",\"channel\":\""@ + ser_string(channel) + ",\"data\":\""@ + ser_string(data) + "}"@;
    let r1 = ser_string(channel) + ",\"data\":\""@ + ser_string(data) + "}"@;
    assert(r =~= ",\"channel\":\""@ + r1);
    lemma_begins_after(",\"channel\":\""@, r1);
    let r2 = ",\"data\":\""@ + ser_string(data) + "}"@;
    assert(r1 =~= escape(channel) + seq!['"'] + r2);
    lemma_unescape_escape(channel, r2);
    let r3 = ser_string(data) + "}"@;
    assert(r2 =~= ",\"data\":\""@ + r3);
    lemma_begins_after(",\"data\":\""@, r3);
    assert(r3 =~= escape(data) + seq!['"'] + "}"@);
    lemma_unescape_escape(data, "}"@);
}


/// Match `lit` at `from`, phrased over the remaining suffix.
fn expect_at(s: &str, from: usize, lit: &str) -> (r: Option<usize>)
    requires
        from <= s@.len(),
    ensures
        match r {
            Option::Some(next) => from <= next <= s@.len() && begins(s@.skip(from as int), lit@)
                && after(s@.skip(from as int), lit@) == s@.skip(next as int),
            Option::None => !begins(s@.skip(from as int), lit@),
        },
{
    match expect_lit(s, from, lit) {
        Option::Some(next) => {
            proof {
                assert(s@.skip(from as int).take(lit@.len() as int) =~= s@.subrange(
                    from as int,
                    from + lit@.len(),
                ));
                assert(s@.skip(from as int).skip(lit@.len() as int) =~= s@.skip(next as int));
            }
            Option::Some(next)
        },
        Option::None => {
            proof {
                if begins(s@.skip(from as int), lit@) {
                    assert(s@.subrange(from as int, from + lit@.len()) =~= s@.skip(
                        from as int,
                    ).take(lit@.len() as int));
                }
            }
            Option::None
        },
    }
}

/// Whether the whole remaining suffix at `from` reads exactly `lit`.
fn expect_end(s: &str, from: usize, lit: &str) -> (r: bool)
    requires
        from <= s@.len(),
    ensures
        r == (s@.skip(from as int) == lit@),
{
    let n = s.unicode_len();
    match expect_lit(s, from, lit) {
        Option::Some(next) => {
            if next == n {
                proof {
                    assert(s@.skip(from as int) =~= s@.subrange(from as int, next as int));
                }
                true
            } else {
                proof {
                    assert(s@.skip(from as int).len() > lit@.len());
                }
                false
            }
        },
        Option::None => {
            proof {
                if s@.skip(from as int) == lit@ {
                    assert(s@.subrange(from as int, from + lit@.len()) =~= s@.skip(
                        from as int,
                    ).take(lit@.len() as int));
                    assert(s@.skip(from as int).take(lit@.len() as int) =~= lit@);
                }
            }
            false
        },
    }
}

/// The canonical wire text of a frame.
pub fn serialize_frame(f: &Frame) -> (r: String)
    ensures
        r@ == spec_serialize(f@),
{
    let mut r = String::from_str("{\"event\":\"");
    match f {
        Frame::Ping => {
            r.append(escape_str("pusher:ping").as_str());
            push_char(&mut r, '"');
            r.append("}");
            proof {
                assert(r@ =~= spec_serialize(f@));
            }
        },
        Frame::Pong => {
            r.append(escape_str("pusher:pong").as_str());
            push_char(&mut r, '"');
            r.append("}");
            proof {
                assert(r@ =~= spec_serialize(f@));
            }
        },
        Frame::ConnectionEstablished { socket_id, activity_timeout } => {
            let mut inner = String::from_str("{\"socket_id\":\"");
            inner.append(escape_str(socket_id.as_str()).as_str());
            push_char(&mut inner, '"');
            inner.append(",\"activity_timeout\":");
            inner.append(u64_to_string(*activity_timeout).as_str());
            inner.append("}");
            proof {
                assert(inner@ =~= established_inner(socket_id@, *activity_timeout));
            }
            r.append(escape_str("pusher:connection_established").as_str());
            push_char(&mut r, '"');
            r.append(",\"data\":\"");
            r.append(escape_str(inner.as_str()).as_str());
            push_char(&mut r, '"');
            r.append("}");
            proof {
                assert(r@ =~= spec_serialize(f@));
            }
        },
        Frame::Subscribe { channel, auth, channel_data } => {
            r.append(escape_str("pusher:subscribe").as_str());
            push_char(&mut r, '"');
            r.append(",\"data\":{\"channel\":\"");
            r.append(escape_str(channel.as_str()).as_str());
            push_char(&mut r, '"');
            r.append(",\"auth\":\"");
            r.append(escape_str(auth.as_str()).as_str());
            push_char(&mut r, '"');
            match channel_data {
                Option::None => {},
                Option::Some(cd) => {
                    r.append(",\"channel_data\":\"");
                    r.append(escape_str(cd.as_str()).as_str());
                    push_char(&mut r, '"');
                },
            }
            r.append("}}");
            proof {
                assert(r@ =~= spec_serialize(f@));
            }
        },
        Frame::Unsubscribe { channel } => {
            r.append(escape_str("pusher:unsubscribe").as_str());
            push_char(&mut r, '"');
            r.append(",\"data\":{\"channel\":\"");
            r.append(escape_str(channel.as_str()).as_str());
            push_char(&mut r, '"');
            r.append("}}");
            proof {
                assert(r@ =~= spec_serialize(f@));
            }
        },
        Frame::SubscriptionSucceeded { channel, data } => {
            r.append(escape_str("pusher_internal:subscription_succeeded").as_str());
            push_char(&mut r, '"');
            r.append(",\"channel\":\"");
            r.append(escape_str(channel.as_str()).as_str());
            push_char(&mut r, '"');
            r.append(",\"data\":\"");
            r.append(escape_str(data.as_str()).as_str());
            push_char(&mut r, '"');
            r.append("}");
            proof {
                assert(r@ =~= spec_serialize(f@));
            }
        },
        Frame::Event { event, channel, data } => {
            r.append(escape_str(event.as_str()).as_str());
            push_char(&mut r, '"');
            r.append(",\"channel\":\"");
            r.append(escape_str(channel.as_str()).as_str());
            push_char(&mut r, '"');
            r.append(",\"data\":\"");
            r.append(escape_str(data.as_str()).as_str());
            push_char(&mut r, '"');
            r.append("}");
            proof {
                assert(r@ =~= spec_serialize(f@));
            }
        },
        Frame::Error { code, message } => {
            r.append(escape_str("pusher:error").as_str());
            push_char(&mut r, '"');
            r.append(",\"data\":{\"message\":\"");
            r.append(escape_str(message.as_str()).as_str());
            push_char(&mut r, '"');
            r.append(",\"code\":");
            r.append(u64_to_string(*code).as_str());
            r.append("}}");
            proof {
                assert(r@ =~= spec_serialize(f@));
            }
        },
    }
    r
}

/// Parse the channel-and-data tail at `from`.
fn parse_chan_data(s: &str, from: usize) -> (r: Option<(String, String)>)
    requires
        from <= s@.len(),
    ensures
        match r {
            Option::Some(p) => spec_parse_chan_data(s@.skip(from as int)) == Option::Some(
                (p.0@, p.1@),
            ),
            Option::None => spec_parse_chan_data(s@.skip(from as int)) is None,
        },
{
    let i1 = match expect_at(s, from, ",\"channel\":\"") {
        Option::None => {
            return Option::None;
        },
        Option::Some(i) => i,
    };
    let (ch, i2) = match scan_string(s, i1) {
        Option::None => {
            return Option::None;
        },
        Option::Some(p) => p,
    };
    let i3 = match expect_at(s, i2, ",\"data\":\"") {
        Option::None => {
            return Option::None;
        },
        Option::Some(i) => i,
    };
    let (d, i4) = match scan_string(s, i3) {
        Option::None => {
            return Option::None;
        },
        Option::Some(p) => p,
    };
    if expect_end(s, i4, "}") {
        Option::Some((ch, d))
    } else {
        Option::None
    }
}

/// Parse the JSON text inside a connection-established `data` string.
fn parse_established_inner(inner: &str) -> (r: Option<(String, u64)>)
    ensures
        match r {
            Option::Some(p) => spec_parse_established(inner@) == Option::Some(
                FrameView::ConnectionEstablished {
                    socket_id: p.0@,
                    activity_timeout: p.1,
                },
            ),
            Option::None => spec_parse_established(inner@) is None,
        },
{
    proof {
        assert(inner@.skip(0) =~= inner@);
    }
    let i1 = match expect_at(inner, 0, "{\"socket_id\":\"") {
        Option::None => {
            return Option::None;
        },
        Option::Some(i) => i,
    };
    let (sid, i2) = match scan_string(inner, i1) {
        Option::None => {
            return Option::None;
        },
        Option::Some(p) => p,
    };
    let i3 = match expect_at(inner, i2, ",\"activity_timeout\":") {
        Option::None => {
            return Option::None;
        },
        Option::Some(i) => i,
    };
    let (t, i4) = match scan_u64(inner, i3) {
        Option::None => {
            return Option::None;
        },
        Option::Some(p) => p,
    };
    if expect_end(inner, i4, "}") {
        Option::Some((sid, t))
    } else {
        Option::None
    }
}

/// Parse one canonical frame text.
pub fn parse_frame(s: &str) -> (r: Option<Frame>)
    ensures
        match r {
            Option::Some(f) => spec_parse(s@) == Option::Some(f@),
            Option::None => spec_parse(s@) is None,
        },
{
    proof {
        assert(s@.skip(0) =~= s@);
    }
    let i1 = match expect_at(s, 0, "{\"event\":\"") {
        Option::None => {
            return Option::None;
        },
        Option::Some(i) => i,
    };
    let (ev, i2) = match scan_string(s, i1) {
        Option::None => {
            return Option::None;
        },
        Option::Some(p) => p,
    };
    proof {
        assert(spec_parse(s@) == spec_parse_body(ev@, s@.skip(i2 as int)));
    }
    if str_eq(ev.as_str(), "pusher:ping") {
        if expect_end(s, i2, "}") {
            Option::Some(Frame::Ping)
        } else {
            Option::None
        }
    } else if str_eq(ev.as_str(), "pusher:pong") {
        if expect_end(s, i2, "}") {
            Option::Some(Frame::Pong)
        } else {
            Option::None
        }
    } else if str_eq(ev.as_str(), "pusher:connection_established") {
        let i3 = match expect_at(s, i2, ",\"data\":\"") {
            Option::None => {
                return Option::None;
            },
            Option::Some(i) => i,
        };
        let (inner, i4) = match scan_string(s, i3) {
            Option::None => {
                return Option::None;
            },
            Option::Some(p) => p,
        };
        if !expect_end(s, i4, "}") {
            return Option::None;
        }
        match parse_established_inner(inner.as_str()) {
            Option::None => Option::None,
            Option::Some((sid, t)) => Option::Some(
                Frame::ConnectionEstablished { socket_id: sid, activity_timeout: t },
            ),
        }
    } else if str_eq(ev.as_str(), "pusher:subscribe") {
        let i3 = match expect_at(s, i2, ",\"data\":{\"channel\":\"") {
            Option::None => {
                return Option::None;
            },
            Option::Some(i) => i,
        };
        let (ch, i4) = match scan_string(s, i3) {
            Option::None => {
                return Option::None;
            },
            Option::Some(p) => p,
        };
        let i5 = match expect_at(s, i4, ",\"auth\":\"") {
            Option::None => {
                return Option::None;
            },
            Option::Some(i) => i,
        };
        let (auth, i6) = match scan_string(s, i5) {
            Option::None => {
                return Option::None;
            },
            Option::Some(p) => p,
        };
        if expect_end(s, i6, "}}") {
            return Option::Some(
                Frame::Subscribe { channel: ch, auth, channel_data: Option::None },
            );
        }
        let i7 = match expect_at(s, i6, ",\"channel_data\":\"") {
            Option::None => {
                return Option::None;
            },
            Option::Some(i) => i,
        };
        let (cd, i8) = match scan_string(s, i7) {
            Option::None => {
                return Option::None;
            },
            Option::Some(p) => p,
        };
        if expect_end(s, i8, "}}") {
            Option::Some(
                Frame::Subscribe { channel: ch, auth, channel_data: Option::Some(cd) },
            )
        } else {
            Option::None
        }
    } else if str_eq(ev.as_str(), "pusher:unsubscribe") {
        let i3 = match expect_at(s, i2, ",\"data\":{\"channel\":\"") {
            Option::None => {
                return Option::None;
            },
            Option::Some(i) => i,
        };
        let (ch, i4) = match scan_string(s, i3) {
            Option::None => {
                return Option::None;
            },
            Option::Some(p) => p,
        };
        if expect_end(s, i4, "}}") {
            Option::Some(Frame::Unsubscribe { channel: ch })
        } else {
            Option::None
        }
    } else if str_eq(ev.as_str(), "pusher:error") {
        let i3 = match expect_at(s, i2, ",\"data\":{\"message\":\"") {
            Option::None => {
                return Option::None;
            },
            Option::Some(i) => i,
        };
        let (msg, i4) = match scan_string(s, i3) {
            Option::None => {
                return Option::None;
            },
            Option::Some(p) => p,
        };
        let i5 = match expect_at(s, i4, ",\"code\":") {
            Option::None => {
                return Option::None;
            },
            Option::Some(i) => i,
        };
        let (code, i6) = match scan_u64(s, i5) {
            Option::None => {
                return Option::None;
            },
            Option::Some(p) => p,
        };
        if expect_end(s, i6, "}}") {
            Option::Some(Frame::Error { code, message: msg })
        } else {
            Option::None
        }
    } else if str_eq(ev.as_str(), "pusher_internal:subscription_succeeded") {
        match parse_chan_data(s, i2) {
            Option::None => Option::None,
            Option::Some((ch, d)) => Option::Some(
                Frame::SubscriptionSucceeded { channel: ch, data: d },
            ),
        }
    } else {
        match parse_chan_data(s, i2) {
            Option::None => Option::None,
            Option::Some((ch, d)) => Option::Some(
                Frame::Event { event: ev, channel: ch, data: d },
            ),
        }
    }
}

} // verus!

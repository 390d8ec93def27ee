//! HMAC-SHA256 signing and verification for channel subscription tokens,
//! user sign-in tokens, and webhook bodies.
//!
//! The MAC itself is computed by the `hmac` crate over SHA-256 from the
//! `sha2` crate; its value is only named here, never restated. Everything
//! around the call — message construction, hex encoding, the comparison of
//! signatures — is verified.

use vstd::prelude::*;
use hmac::Mac;

verus! {

/// The HMAC-SHA256 tag of `message` under `key`: a pure function of the two
/// character sequences (both are fed to the MAC as their UTF-8 bytes).
pub uninterp spec fn hmac_sha256_of(key: Seq<char>, message: Seq<char>) -> Seq<u8>;

/// Relies on `hmac::Hmac<sha2::Sha256>`: `new_from_slice` accepts a key of
/// any length, and the 32-byte tag depends on the key and message alone.
#[verifier::external_body]
pub fn hmac_sha256(key: &str, message: &str) -> (r: Vec<u8>)
    ensures
        r@ == hmac_sha256_of(key@, message@),
        r@.len() == 32,
{
    let mut mac = hmac::Hmac::<sha2::Sha256>::new_from_slice(key.as_bytes()).unwrap();
    mac.update(message.as_bytes());
    mac.finalize().into_bytes().to_vec()
}

/// The lower-case hex digit for a nibble value.
pub open spec fn hex_char(n: u8) -> char {
    if n == 0 { '0' } else if n == 1 { '1' } else if n == 2 { '2' } else if n == 3 { '3' }
    else if n == 4 { '4' } else if n == 5 { '5' } else if n == 6 { '6' } else if n == 7 { '7' }
    else if n == 8 { '8' } else if n == 9 { '9' } else if n == 10 { 'a' } else if n == 11 { 'b' }
    else if n == 12 { 'c' } else if n == 13 { 'd' } else if n == 14 { 'e' } else { 'f' }
}

/// Lower-case hex encoding: two digits per byte, high nibble first.
pub open spec fn hex_of(bs: Seq<u8>) -> Seq<char>
    decreases bs.len(),
{
    if bs.len() == 0 {
        Seq::<char>::empty()
    } else {
        hex_of(bs.drop_last()).push(hex_char(bs.last() / 16)).push(hex_char(bs.last() % 16))
    }
}

fn nibble_str(n: u8) -> (r: &'static str)
    requires
        n < 16,
    ensures
        r@ =~= seq![hex_char(n)],
{
    proof {
        reveal_strlit("0"); reveal_strlit("1"); reveal_strlit("2"); reveal_strlit("3");
        reveal_strlit("4"); reveal_strlit("5"); reveal_strlit("6"); reveal_strlit("7");
        reveal_strlit("8"); reveal_strlit("9"); reveal_strlit("a"); reveal_strlit("b");
        reveal_strlit("c"); reveal_strlit("d"); reveal_strlit("e"); reveal_strlit("f");
    }
    match n {
        0 => "0", 1 => "1", 2 => "2", 3 => "3",
        4 => "4", 5 => "5", 6 => "6", 7 => "7",
        8 => "8", 9 => "9", 10 => "a", 11 => "b",
        12 => "c", 13 => "d", 14 => "e", _ => "f",
    }
}

pub fn hex_encode(bytes: &Vec<u8>) -> (r: String)
    ensures
        r@ == hex_of(bytes@),
{
    let mut r = String::new();
    let n = bytes.len();
    let mut i: usize = 0;
    while i < n
        invariant
            i <= n,
            n == bytes@.len(),
            r@ == hex_of(bytes@.subrange(0, i as int)),
        decreases n - i,
    {
        let b = bytes[i];
        r.append(nibble_str(b / 16));
        r.append(nibble_str(b % 16));
        proof {
            let pre = bytes@.subrange(0, i as int);
            let cur = bytes@.subrange(0, i + 1 as int);
            assert(cur.drop_last() =~= pre);
            assert(cur.last() == bytes@[i as int]);
        }
        i += 1;
    }
    proof {
        assert(bytes@.subrange(0, n as int) =~= bytes@);
    }
    r
}

/// Signature comparison without a content-dependent branch: the scan always
/// walks the whole expected signature, a length mismatch only folds into the
/// accumulated flag, and nothing returns before the scan ends — so the
/// running time is fixed by the expected signature, not by what was
/// provided.
pub fn constant_time_str_eq(provided: &str, expected: &str) -> (r: bool)
    ensures
        r == (provided@ == expected@),
{
    let n = provided.unicode_len();
    let m = expected.unicode_len();
    let mut diff: bool = n != m;
    let mut i: usize = 0;
    while i < m
        invariant
            i <= m,
            n == provided@.len(),
            m == expected@.len(),
            n == m ==> diff == exists|j: int| 0 <= j < i && provided@[j] != expected@[j],
            n != m ==> diff,
        decreases m - i,
    {
        let pc = if i < n {
            provided.get_char(i)
        } else {
            expected.get_char(i)
        };
        if pc != expected.get_char(i) {
            diff = true;
        }
        i += 1;
    }
    if diff {
        proof {
            if n == m {
                let j = choose|j: int| 0 <= j < m && provided@[j] != expected@[j];
                assert(provided@[j] != expected@[j]);
            }
        }
        false
    } else {
        proof {
            assert(provided@ =~= expected@);
        }
        true
    }
}

/// The string a client signs to subscribe to a channel:
/// `<socket_id>:<channel>`, with `:<channel_data>` appended on presence
/// channels.
pub open spec fn spec_channel_auth_message(
    sid: Seq<char>,
    channel: Seq<char>,
    channel_data: Option<Seq<char>>,
) -> Seq<char> {
    match channel_data {
        Option::None => sid + ":"@ + channel,
        Option::Some(d) => sid + ":"@ + channel + ":"@ + d,
    }
}

/// The string a client signs to bind a user to its connection:
/// `<socket_id>::user::<user_data>`.
pub open spec fn spec_signin_message(sid: Seq<char>, user_data: Seq<char>) -> Seq<char> {
    sid + "::user::"@ + user_data
}

pub open spec fn opt_str_view(s: Option<&str>) -> Option<Seq<char>> {
    match s {
        Option::None => Option::None,
        Option::Some(v) => Option::Some(v@),
    }
}

pub fn channel_auth_message(socket_id: &str, channel: &str, channel_data: Option<&str>) -> (r:
    String)
    ensures
        r@ == spec_channel_auth_message(socket_id@, channel@, opt_str_view(channel_data)),
{
    let mut r = String::from_str(socket_id);
    r.append(":");
    r.append(channel);
    if let Option::Some(d) = channel_data {
        r.append(":");
        r.append(d);
    }
    r
}

pub fn signin_message(socket_id: &str, user_data: &str) -> (r: String)
    ensures
        r@ == spec_signin_message(socket_id@, user_data@),
{
    let mut r = String::from_str(socket_id);
    r.append("::user::");
    r.append(user_data);
    r
}

/// The hex signature the broker expects on a subscription to `channel`.
pub open spec fn spec_channel_signature(
    secret: Seq<char>,
    sid: Seq<char>,
    channel: Seq<char>,
    channel_data: Option<Seq<char>>,
) -> Seq<char> {
    hex_of(hmac_sha256_of(secret, spec_channel_auth_message(sid, channel, channel_data)))
}

pub fn channel_signature(secret: &str, socket_id: &str, channel: &str, channel_data: Option<
    &str>) -> (r: String)
    ensures
        r@ == spec_channel_signature(secret@, socket_id@, channel@, opt_str_view(channel_data)),
{
    let message = channel_auth_message(socket_id, channel, channel_data);
    let mac = hmac_sha256(secret, message.as_str());
    hex_encode(&mac)
}

/// Accept a subscription signature exactly when it equals the expected
/// HMAC-SHA256 hex signature of the auth message under the app's secret.
pub fn verify_channel_auth(
    secret: &str,
    socket_id: &str,
    channel: &str,
    channel_data: Option<&str>,
    signature: &str,
) -> (r: bool)
    ensures
        r == (signature@ == spec_channel_signature(
            secret@,
            socket_id@,
            channel@,
            opt_str_view(channel_data),
        )),
{
    let expected = channel_signature(secret, socket_id, channel, channel_data);
    constant_time_str_eq(signature, expected.as_str())
}

/// The hex signature the broker expects on a `pusher:signin` frame.
pub open spec fn spec_signin_signature(
    secret: Seq<char>,
    sid: Seq<char>,
    user_data: Seq<char>,
) -> Seq<char> {
    hex_of(hmac_sha256_of(secret, spec_signin_message(sid, user_data)))
}

pub fn verify_signin(secret: &str, socket_id: &str, user_data: &str, signature: &str) -> (r:
    bool)
    ensures
        r == (signature@ == spec_signin_signature(secret@, socket_id@, user_data@)),
{
    let message = signin_message(socket_id, user_data);
    let mac = hmac_sha256(secret, message.as_str());
    let expected = hex_encode(&mac);
    constant_time_str_eq(signature, expected.as_str())
}

/// The `X-Pusher-Signature` value for a webhook body.
pub open spec fn spec_body_signature(secret: Seq<char>, body: Seq<char>) -> Seq<char> {
    hex_of(hmac_sha256_of(secret, body))
}

pub fn body_signature(secret: &str, body: &str) -> (r: String)
    ensures
        r@ == spec_body_signature(secret@, body@),
{
    let mac = hmac_sha256(secret, body);
    hex_encode(&mac)
}

} // verus!

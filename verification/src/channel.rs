//! Channel classification: a channel's name prefix decides its kind
//! (public, private, private-encrypted, presence), whether subscribing
//! requires authentication, and whether the last event is cached.

use vstd::prelude::*;

verus! {

/// The kind of a channel, decided by its name prefix.
#[derive(Clone, Copy, Debug, PartialEq, Eq, Structural)]
pub enum ChannelType {
    Public,
    Private,
    PrivateEncrypted,
    Presence,
}

pub open spec fn spec_starts_with(s: Seq<char>, prefix: Seq<char>) -> bool {
    s.len() >= prefix.len() && s.subrange(0, prefix.len() as int) == prefix
}

pub open spec fn spec_channel_type(name: Seq<char>) -> ChannelType {
    if spec_starts_with(name, "presence-"@) {
        ChannelType::Presence
    } else if spec_starts_with(name, "private-encrypted-"@) {
        ChannelType::PrivateEncrypted
    } else if spec_starts_with(name, "private-"@) {
        ChannelType::Private
    } else {
        ChannelType::Public
    }
}

/// A channel whose last event is memoized and replayed to fresh subscribers.
pub open spec fn spec_is_cache_channel(name: Seq<char>) -> bool {
    ||| spec_starts_with(name, "cache-"@)
    ||| spec_starts_with(name, "private-cache-"@)
    ||| spec_starts_with(name, "private-encrypted-cache-"@)
    ||| spec_starts_with(name, "presence-cache-"@)
}

/// Every non-public channel requires a signed subscription token.
pub open spec fn spec_requires_auth(name: Seq<char>) -> bool {
    spec_channel_type(name) != ChannelType::Public
}

/// Client events are those whose name begins with `client-`.
pub open spec fn spec_is_client_event(event: Seq<char>) -> bool {
    spec_starts_with(event, "client-"@)
}

pub open spec fn spec_valid_channel_char(c: char) -> bool {
    ||| ('a' <= c && c <= 'z')
    ||| ('A' <= c && c <= 'Z')
    ||| ('0' <= c && c <= '9')
    ||| c == '_' || c == '-' || c == '=' || c == '@' || c == ',' || c == '.' || c == ';'
}

/// A usable channel name: non-empty, at most 200 characters, all from the
/// allowed alphabet.
pub open spec fn spec_valid_channel_name(name: Seq<char>) -> bool {
    &&& 0 < name.len() <= 200
    &&& forall|i: int| 0 <= i < name.len() ==> spec_valid_channel_char(name[i])
}

pub fn starts_with(s: &str, prefix: &str) -> (r: bool)
    ensures
        r == spec_starts_with(s@, prefix@),
{
    let n = s.unicode_len();
    let p = prefix.unicode_len();
    if n < p {
        return false;
    }
    let mut i: usize = 0;
    while i < p
        invariant
            i <= p,
            p <= n,
            n == s@.len(),
            p == prefix@.len(),
            forall|j: int| 0 <= j < i ==> s@[j] == prefix@[j],
        decreases p - i,
    {
        if s.get_char(i) != prefix.get_char(i) {
            assert(s@.subrange(0, p as int)[i as int] != prefix@[i as int]);
            return false;
        }
        i += 1;
    }
    assert(s@.subrange(0, p as int) =~= prefix@);
    true
}

pub fn channel_type(name: &str) -> (r: ChannelType)
    ensures
        r == spec_channel_type(name@),
{
    if starts_with(name, "presence-") {
        ChannelType::Presence
    } else if starts_with(name, "private-encrypted-") {
        ChannelType::PrivateEncrypted
    } else if starts_with(name, "private-") {
        ChannelType::Private
    } else {
        ChannelType::Public
    }
}

pub fn is_cache_channel(name: &str) -> (r: bool)
    ensures
        r == spec_is_cache_channel(name@),
{
    starts_with(name, "cache-") || starts_with(name, "private-cache-") || starts_with(
        name,
        "private-encrypted-cache-",
    ) || starts_with(name, "presence-cache-")
}

pub fn requires_auth(name: &str) -> (r: bool)
    ensures
        r == spec_requires_auth(name@),
{
    let t = channel_type(name);
    match t {
        ChannelType::Public => false,
        _ => true,
    }
}

pub fn is_client_event(event: &str) -> (r: bool)
    ensures
        r == spec_is_client_event(event@),
{
    starts_with(event, "client-")
}

pub fn is_valid_channel_name(name: &str) -> (r: bool)
    ensures
        r == spec_valid_channel_name(name@),
{
    let n = name.unicode_len();
    if n == 0 || n > 200 {
        return false;
    }
    let mut i: usize = 0;
    while i < n
        invariant
            i <= n,
            n == name@.len(),
            0 < n <= 200,
            forall|j: int| 0 <= j < i ==> spec_valid_channel_char(name@[j]),
        decreases n - i,
    {
        let c = name.get_char(i);
        let ok = (c >= 'a' && c <= 'z') || (c >= 'A' && c <= 'Z') || (c >= '0' && c <= '9') || c
            == '_' || c == '-' || c == '=' || c == '@' || c == ',' || c == '.' || c == ';';
        if !ok {
            return false;
        }
        i += 1;
    }
    true
}

} // verus!

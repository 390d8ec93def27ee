//! Validation for the HTTP trigger endpoints: how many channels one event
//! may go to, how many events one batch may carry, and that every named
//! channel is usable.

use vstd::prelude::*;
use crate::channel::{is_valid_channel_name, spec_valid_channel_name};
use crate::text::str_eq;

verus! {

/// Most channels one trigger may address.
pub const MAX_TRIGGER_CHANNELS: usize = 100;

/// Most events one batch trigger may carry.
pub const MAX_BATCH_EVENTS: usize = 10;

/// Why a trigger request was refused.
#[derive(Clone, Copy, Debug, PartialEq, Eq, Structural)]
pub enum TriggerError {
    /// More than `MAX_TRIGGER_CHANNELS` channels named.
    TooManyChannels,
    /// Some named channel is not a usable channel name.
    InvalidChannelName,
}

/// The trigger validation: the channel list must fit the cap and every
/// name must be valid.
pub open spec fn spec_validate_trigger_channels(channels: Seq<String>) -> Result<
    (),
    TriggerError,
> {
    if channels.len() > MAX_TRIGGER_CHANNELS {
        Result::Err(TriggerError::TooManyChannels)
    } else if exists|i: int| 0 <= i < channels.len() && !spec_valid_channel_name(channels[i]@) {
        Result::Err(TriggerError::InvalidChannelName)
    } else {
        Result::Ok(())
    }
}

pub fn validate_trigger_channels(channels: &Vec<String>) -> (r: Result<(), TriggerError>)
    ensures
        r == spec_validate_trigger_channels(channels@),
{
    let n = channels.len();
    if n > MAX_TRIGGER_CHANNELS {
        return Result::Err(TriggerError::TooManyChannels);
    }
    let mut i: usize = 0;
    while i < n
        invariant
            i <= n,
            n == channels@.len(),
            n <= MAX_TRIGGER_CHANNELS,
            forall|j: int| 0 <= j < i ==> spec_valid_channel_name(#[trigger] channels@[j]@),
        decreases n - i,
    {
        if !is_valid_channel_name(channels[i].as_str()) {
            return Result::Err(TriggerError::InvalidChannelName);
        }
        i += 1;
    }
    Result::Ok(())
}

/// A batch trigger holds at most `MAX_BATCH_EVENTS` events.
pub fn validate_batch_size(event_count: usize) -> (r: bool)
    ensures
        r == (event_count <= MAX_BATCH_EVENTS),
{
    event_count <= MAX_BATCH_EVENTS
}

/// Whether the CORS origin list holds a wildcard entry.
pub open spec fn spec_has_wildcard_origin(origins: Seq<String>) -> bool {
    exists|i: int|
        0 <= i < origins.len() && ((#[trigger] origins[i])@ == "*"@ || origins[i]@ == "Any"@
            || origins[i]@ == "any"@)
}

/// The CORS decision: whether any origin is allowed, and whether
/// credentials stay on — a wildcard origin forces credentials off.
pub fn cors_policy(origins: &Vec<String>, credentials: bool) -> (r: (bool, bool))
    ensures
        r.0 == spec_has_wildcard_origin(origins@),
        r.1 == (credentials && !spec_has_wildcard_origin(origins@)),
{
    let n = origins.len();
    let mut i: usize = 0;
    while i < n
        invariant
            i <= n,
            n == origins@.len(),
            forall|j: int|
                0 <= j < i ==> !((#[trigger] origins@[j])@ == "*"@ || origins@[j]@ == "Any"@
                    || origins@[j]@ == "any"@),
        decreases n - i,
    {
        let o = origins[i].as_str();
        if str_eq(o, "*") || str_eq(o, "Any") || str_eq(o, "any") {
            proof {
                assert(origins@[i as int]@ == "*"@ || origins@[i as int]@ == "Any"@
                    || origins@[i as int]@ == "any"@);
            }
            return (true, false);
        }
        i += 1;
    }
    (false, credentials)
}

} // verus!

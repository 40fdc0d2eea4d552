//! The decisions of the device-code sign-in: the caller polls the
//! authentication service and hands each reply here; this says whether to
//! keep the token, wait and poll again, or give up.
use vstd::prelude::*;

verus! {

/// Seconds of extra wait, on top of a second interval, when the service
/// asks to slow down.
pub const SLOW_DOWN_SECS: u64 = 5;

/// What the service answered to one poll.
pub enum DeviceReply {
    /// The user approved; here is the API token.
    Granted(String),
    /// Not approved yet, and the service asks for slower polling.
    SlowDown,
    /// Not approved yet.
    Pending,
}

/// What the caller does next.
#[derive(Debug, PartialEq, Eq)]
pub enum DeviceAction {
    /// Store this token; sign-in is complete.
    Save(String),
    /// Wait this many seconds, then poll again.
    Wait(u64),
    /// The device code expired.
    TimedOut,
}

/// The next step after a reply received at `now`, for a device code that
/// expires at `deadline` and a polling interval of `interval` seconds: one
/// interval before the next poll, or two and `SLOW_DOWN_SECS` more when
/// asked to slow down. A granted token is kept even at the deadline.
pub fn next_device_action(reply: DeviceReply, interval: u64, now: u64, deadline: u64) -> (r: DeviceAction)
    ensures
        match reply {
            DeviceReply::Granted(t) => r == DeviceAction::Save(t),
            DeviceReply::SlowDown => if now >= deadline {
                r == DeviceAction::TimedOut
            } else if interval <= (u64::MAX - SLOW_DOWN_SECS) / 2 {
                r == DeviceAction::Wait((2 * interval + SLOW_DOWN_SECS) as u64)
            } else {
                r == DeviceAction::Wait(u64::MAX)
            },
            DeviceReply::Pending => if now >= deadline {
                r == DeviceAction::TimedOut
            } else {
                r == DeviceAction::Wait(interval)
            },
        },
{
    match reply {
        DeviceReply::Granted(t) => DeviceAction::Save(t),
        DeviceReply::SlowDown => {
            if now >= deadline {
                DeviceAction::TimedOut
            } else if interval <= (u64::MAX - SLOW_DOWN_SECS) / 2 {
                DeviceAction::Wait(2 * interval + SLOW_DOWN_SECS)
            } else {
                DeviceAction::Wait(u64::MAX)
            }
        },
        DeviceReply::Pending => {
            if now >= deadline {
                DeviceAction::TimedOut
            } else {
                DeviceAction::Wait(interval)
            }
        },
    }
}

} // verus!

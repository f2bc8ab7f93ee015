//! The typed event decoder for the asynchronous notification channel: a
//! stateless mapping from a notification's command code and attribute
//! list to one of a closed set of monitor events.

use vstd::prelude::*;

use crate::attr::{WG_CMD_CHANGED_PEER, WG_CMD_HANDSHAKE_COMPLETE};
use crate::codec::{attrs_view, NlAttr};
use crate::device::Device;
use crate::err::IterMcastEventsError;
use crate::get::{parse_device, spec_parse_device};

verus! {

/// One event on the notification channel.  Each carries the device state
/// the notification described.
pub enum MonitorEvent {
    ChangedPeer(Device),
    HandshakeComplete(Device),
}

/// Decode one notification.  Exactly the two known command codes yield
/// events; any other code is an error naming that code, and never a
/// silently dropped message.  A malformed attribute list is a decode
/// error.
pub fn parse_monitor_event(cmd: u8, attrs: &Vec<NlAttr>) -> (r: Result<
    MonitorEvent,
    IterMcastEventsError,
>)
    ensures
        cmd != WG_CMD_CHANGED_PEER && cmd != WG_CMD_HANDSHAKE_COMPLETE ==> (r matches Err(
            IterMcastEventsError::UnexpectedCommandError { cmd: c },
        ) && c == cmd),
        cmd == WG_CMD_CHANGED_PEER ==> match (r, spec_parse_device(attrs_view(attrs@))) {
            (Ok(MonitorEvent::ChangedPeer(d)), Ok(dv)) => d@ == dv,
            (Err(IterMcastEventsError::Decode(e)), Err(se)) => e == se,
            _ => false,
        },
        cmd == WG_CMD_HANDSHAKE_COMPLETE ==> match (r, spec_parse_device(attrs_view(attrs@))) {
            (Ok(MonitorEvent::HandshakeComplete(d)), Ok(dv)) => d@ == dv,
            (Err(IterMcastEventsError::Decode(e)), Err(se)) => e == se,
            _ => false,
        },
{
    if cmd == WG_CMD_CHANGED_PEER {
        match parse_device(attrs) {
            Ok(d) => Ok(MonitorEvent::ChangedPeer(d)),
            Err(e) => Err(IterMcastEventsError::Decode(e)),
        }
    } else if cmd == WG_CMD_HANDSHAKE_COMPLETE {
        match parse_device(attrs) {
            Ok(d) => Ok(MonitorEvent::HandshakeComplete(d)),
            Err(e) => Err(IterMcastEventsError::Decode(e)),
        }
    } else {
        Err(IterMcastEventsError::UnexpectedCommandError { cmd })
    }
}

} // verus!

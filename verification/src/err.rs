//! The error taxonomy: every fallible step of every public operation
//! returns one of these typed failures.  Transport-level failures are
//! carried as values, never discarded.

use vstd::prelude::*;

verus! {

/// A failure reported by the transport layer (socket I/O, message
/// serialization, family resolution).  The caller that drives the socket
/// builds one of these from whatever its transport reported; the detail
/// string is opaque to this crate.
#[derive(Clone, Debug)]
pub enum TransportError {
    /// An I/O failure on the socket.
    Io(String),
    /// A failure to serialize or deserialize a transport message.
    Serialize(String),
    /// Any other failure the transport reported.
    Other(String),
}

/// A malformed attribute buffer or attribute payload.
#[derive(Clone, Copy, Debug, PartialEq, Eq, Structural)]
pub enum DecodeError {
    /// Fewer bytes remained than an attribute header needs.
    Truncated,
    /// A record's length field was under the header size or past the buffer.
    BadLength,
    /// A scalar payload had the wrong width for its tag.
    UnexpectedPayloadSize,
    /// An address family other than the two supported ones.
    UnknownFamily,
    /// A required attribute was absent.
    MissingAttribute,
    /// A string payload was not valid text.
    BadString,
}

/// An attribute or message that cannot be represented on the wire
/// (an oversized payload or a tag outside the tag space).
#[derive(Clone, Copy, Debug, PartialEq, Eq, Structural)]
pub enum BuildError {
    /// A payload longer than the 16-bit length field can state.
    PayloadTooLong,
    /// A tag that collides with the wire flag bits.
    TagOutOfRange,
    /// A key field whose length is not the 32 bytes the protocol fixes.
    InvalidKeyLength,
    /// An interface name whose length is not strictly between 0 and the
    /// platform limit.
    InvalidInterfaceName,
    /// An address whose byte width does not match its family.
    InvalidAddress,
}

/// Failure to establish a connection: the family or multicast group could
/// not be resolved, or the transport failed.
#[derive(Clone, Debug)]
pub enum ConnectError {
    ResolveFamilyError(TransportError),
    Transport(TransportError),
}

/// Failure to create or delete an interface link.
#[derive(Clone, Debug)]
pub enum LinkDeviceError {
    Build(BuildError),
    Transport(TransportError),
}

/// Failure to enumerate interface links.
#[derive(Clone, Debug)]
pub enum ListDevicesError {
    /// A malformed dump response whose shape this crate cannot interpret.
    Unknown,
    Build(BuildError),
    Transport(TransportError),
}

/// Failure to read a device configuration.
#[derive(Clone, Debug)]
pub enum GetDeviceError {
    /// The interface name was empty or too long; nothing was sent.
    InvalidInterfaceName,
    /// The kernel reported an error marker, or no message carried the
    /// device-level fields.
    AccessError,
    Decode(DecodeError),
    Build(BuildError),
    Transport(TransportError),
}

/// Failure to write a device configuration.  Fragments already applied
/// stay applied: the device may be left partially updated.
#[derive(Clone, Debug)]
pub enum SetDeviceError {
    Build(BuildError),
    Transport(TransportError),
}

/// Failure while pulling monitor events from the notification channel.
#[derive(Clone, Debug)]
pub enum IterMcastEventsError {
    /// The connection resolved no multicast group, so there is nothing to
    /// listen on.
    McastDisabledError,
    /// A notification carried a command code outside the accepted set.
    UnexpectedCommandError { cmd: u8 },
    Decode(DecodeError),
    Transport(TransportError),
}

} // verus!

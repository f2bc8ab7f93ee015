//! Tag namespaces, command codes and flag bits of the device-configuration
//! and interface-lifecycle protocols, as the kernel headers fix them.

use vstd::prelude::*;

verus! {

/// Name under which the device-configuration family is registered, and the
/// link-info kind that marks this driver's virtual interfaces.
pub const WG_GENL_NAME: &'static str = "wireguard";

/// Version byte of the device-configuration command header.
pub const WG_GENL_VERSION: u8 = 1;

// Command codes of the device-configuration protocol.
pub const WG_CMD_GET_DEVICE: u8 = 0;

pub const WG_CMD_SET_DEVICE: u8 = 1;

// Command codes seen on the notification channel.
pub const WG_CMD_CHANGED_PEER: u8 = 2;

pub const WG_CMD_HANDSHAKE_COMPLETE: u8 = 3;

// Device-level attribute tags.
pub const WGDEVICE_A_IFINDEX: u16 = 1;

pub const WGDEVICE_A_IFNAME: u16 = 2;

pub const WGDEVICE_A_PRIVATE_KEY: u16 = 3;

pub const WGDEVICE_A_PUBLIC_KEY: u16 = 4;

pub const WGDEVICE_A_FLAGS: u16 = 5;

pub const WGDEVICE_A_LISTEN_PORT: u16 = 6;

pub const WGDEVICE_A_FWMARK: u16 = 7;

pub const WGDEVICE_A_PEERS: u16 = 8;

// Peer-level attribute tags.
pub const WGPEER_A_PUBLIC_KEY: u16 = 1;

pub const WGPEER_A_PRESHARED_KEY: u16 = 2;

pub const WGPEER_A_FLAGS: u16 = 3;

pub const WGPEER_A_ENDPOINT: u16 = 4;

pub const WGPEER_A_PERSISTENT_KEEPALIVE_INTERVAL: u16 = 5;

pub const WGPEER_A_ALLOWEDIPS: u16 = 9;

// Allowed-ip-level attribute tags.
pub const WGALLOWEDIP_A_FAMILY: u16 = 1;

pub const WGALLOWEDIP_A_IPADDR: u16 = 2;

pub const WGALLOWEDIP_A_CIDR_MASK: u16 = 3;

// Flag bits of the device-level FLAGS attribute.
pub const WGDEVICE_F_REPLACE_PEERS: u32 = 1;

// Flag bits of the peer-level FLAGS attribute.
pub const WGPEER_F_REMOVE_ME: u32 = 1;

pub const WGPEER_F_REPLACE_ALLOWEDIPS: u32 = 2;

pub const WGPEER_F_UPDATE_ONLY: u32 = 4;

// Link-level (interface-lifecycle protocol) attribute tags.
pub const IFLA_IFNAME: u16 = 3;

pub const IFLA_LINKINFO: u16 = 18;

pub const IFLA_INFO_KIND: u16 = 1;

// Message types of the interface-lifecycle protocol.
pub const RTM_NEWLINK: u16 = 16;

pub const RTM_DELLINK: u16 = 17;

pub const RTM_GETLINK: u16 = 18;

// Header flag bits of the message bus.
pub const NLM_F_REQUEST: u16 = 1;

pub const NLM_F_ACK: u16 = 4;

pub const NLM_F_EXCL: u16 = 0x200;

pub const NLM_F_CREATE: u16 = 0x400;

pub const NLM_F_DUMP: u16 = 0x300;

} // verus!

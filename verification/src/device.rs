//! The in-memory device model: a device, its peers, and their
//! allowed-address lists, independent of the wire format.

use vstd::prelude::*;

use crate::interface::{iface_wf, DeviceInterface, DeviceInterfaceV};

verus! {

/// An IP address of either family, as its raw bytes.
#[derive(Clone, Debug, PartialEq, Eq)]
pub enum IpAddr {
    V4(Vec<u8>),
    V6(Vec<u8>),
}

#[verifier::ext_equal]
pub ghost enum IpAddrV {
    V4(Seq<u8>),
    V6(Seq<u8>),
}

impl View for IpAddr {
    type V = IpAddrV;

    open spec fn view(&self) -> IpAddrV {
        match self {
            IpAddr::V4(b) => IpAddrV::V4(b@),
            IpAddr::V6(b) => IpAddrV::V6(b@),
        }
    }
}

pub open spec fn ip_wf(a: IpAddrV) -> bool {
    match a {
        IpAddrV::V4(b) => b.len() == 4,
        IpAddrV::V6(b) => b.len() == 16,
    }
}

/// Full bit width of an address's family: the default prefix length.
pub open spec fn spec_full_mask(a: IpAddrV) -> u8 {
    match a {
        IpAddrV::V4(_) => 32,
        IpAddrV::V6(_) => 128,
    }
}

/// One allowed-address entry of a peer.  An absent prefix length stands
/// for the address family's full bit width.
#[derive(Clone, Debug, PartialEq, Eq)]
pub struct AllowedIp {
    pub ipaddr: IpAddr,
    pub cidr_mask: Option<u8>,
}

/// Model of an allowed address, with the prefix length made explicit.
#[verifier::ext_equal]
pub ghost struct AllowedIpV {
    pub addr: IpAddrV,
    pub cidr: u8,
}

impl View for AllowedIp {
    type V = AllowedIpV;

    open spec fn view(&self) -> AllowedIpV {
        AllowedIpV {
            addr: self.ipaddr@,
            cidr: match self.cidr_mask {
                Some(m) => m,
                None => spec_full_mask(self.ipaddr@),
            },
        }
    }
}

pub open spec fn allowed_ip_wf(a: AllowedIpV) -> bool {
    ip_wf(a.addr)
}

impl AllowedIp {
    /// An entry covering exactly the given address: no explicit mask is
    /// stored, and the model defaults the prefix to the family's full
    /// bit width.
    pub fn from_ipaddr(ipaddr: IpAddr) -> (r: Self)
        ensures
            r.ipaddr == ipaddr,
            r.cidr_mask is None,
            r@.addr == ipaddr@,
            r@.cidr == spec_full_mask(ipaddr@),
    {
        Self { ipaddr, cidr_mask: None }
    }
}

/// A peer's remote socket address.
#[derive(Clone, Debug, PartialEq, Eq)]
pub struct Endpoint {
    pub addr: IpAddr,
    pub port: u16,
}

#[verifier::ext_equal]
pub ghost struct EndpointV {
    pub addr: IpAddrV,
    pub port: u16,
}

impl View for Endpoint {
    type V = EndpointV;

    open spec fn view(&self) -> EndpointV {
        EndpointV { addr: self.addr@, port: self.port }
    }
}

pub open spec fn endpoint_wf(e: EndpointV) -> bool {
    ip_wf(e.addr)
}

/// Peer-level mutation flags.
#[derive(Clone, Copy, Debug, PartialEq, Eq, Structural)]
pub struct PeerFlags {
    pub remove_me: bool,
    pub replace_allowed_ips: bool,
    pub update_only: bool,
}

impl PeerFlags {
    pub fn none() -> (r: Self)
        ensures
            r == (PeerFlags { remove_me: false, replace_allowed_ips: false, update_only: false }),
    {
        PeerFlags { remove_me: false, replace_allowed_ips: false, update_only: false }
    }
}

/// A peer: identified by its public key.
#[derive(Clone, Debug, PartialEq, Eq)]
pub struct Peer {
    pub public_key: Vec<u8>,
    pub preshared_key: Option<Vec<u8>>,
    pub endpoint: Option<Endpoint>,
    pub persistent_keepalive_interval: Option<u16>,
    pub allowed_ips: Vec<AllowedIp>,
    pub flags: PeerFlags,
}

#[verifier::ext_equal]
pub ghost struct PeerV {
    pub public_key: Seq<u8>,
    pub preshared_key: Option<Seq<u8>>,
    pub endpoint: Option<EndpointV>,
    pub persistent_keepalive_interval: Option<u16>,
    pub allowed_ips: Seq<AllowedIpV>,
    pub flags: PeerFlags,
}

impl View for Peer {
    type V = PeerV;

    open spec fn view(&self) -> PeerV {
        PeerV {
            public_key: self.public_key@,
            preshared_key: match self.preshared_key {
                Some(k) => Some(k@),
                None => None,
            },
            endpoint: match self.endpoint {
                Some(e) => Some(e@),
                None => None,
            },
            persistent_keepalive_interval: self.persistent_keepalive_interval,
            allowed_ips: self.allowed_ips@.map_values(|a: AllowedIp| a@),
            flags: self.flags,
        }
    }
}

/// Length the protocol fixes for public and preshared keys.
pub const KEY_LEN: usize = 32;

pub open spec fn peer_wf(p: PeerV) -> bool {
    &&& p.public_key.len() == KEY_LEN
    &&& match p.preshared_key {
        Some(k) => k.len() == KEY_LEN,
        None => true,
    }
    &&& match p.endpoint {
        Some(e) => endpoint_wf(e),
        None => true,
    }
    &&& forall|i: int| 0 <= i < p.allowed_ips.len() ==> allowed_ip_wf(#[trigger] p.allowed_ips[i])
}

/// A device: an interface identity, its keys and scalars, and its peers.
#[derive(Clone, Debug, PartialEq, Eq)]
pub struct Device {
    pub interface: DeviceInterface,
    pub private_key: Option<Vec<u8>>,
    pub public_key: Option<Vec<u8>>,
    pub listen_port: Option<u16>,
    pub fwmark: Option<u32>,
    pub peers: Vec<Peer>,
    pub replace_peers: bool,
}

#[verifier::ext_equal]
pub ghost struct DeviceV {
    pub interface: DeviceInterfaceV,
    pub private_key: Option<Seq<u8>>,
    pub public_key: Option<Seq<u8>>,
    pub listen_port: Option<u16>,
    pub fwmark: Option<u32>,
    pub peers: Seq<PeerV>,
    pub replace_peers: bool,
}

impl View for Device {
    type V = DeviceV;

    open spec fn view(&self) -> DeviceV {
        DeviceV {
            interface: self.interface@,
            private_key: match self.private_key {
                Some(k) => Some(k@),
                None => None,
            },
            public_key: match self.public_key {
                Some(k) => Some(k@),
                None => None,
            },
            listen_port: self.listen_port,
            fwmark: self.fwmark,
            peers: self.peers@.map_values(|p: Peer| p@),
            replace_peers: self.replace_peers,
        }
    }
}

pub open spec fn device_wf(d: DeviceV) -> bool {
    &&& iface_wf(d.interface)
    &&& match d.private_key {
        Some(k) => k.len() == KEY_LEN,
        None => true,
    }
    &&& match d.public_key {
        Some(k) => k.len() == KEY_LEN,
        None => true,
    }
    &&& forall|i: int| 0 <= i < d.peers.len() ==> peer_wf(#[trigger] d.peers[i])
}

/// No two consecutive peers share a public key.  The multi-message merge
/// identifies a continued peer by "same key as the last peer of the
/// previous message", so a device violating this cannot be told apart
/// from its own coalescing on the wire.
pub open spec fn peers_adjacent_distinct(peers: Seq<PeerV>) -> bool {
    forall|i: int| 0 < i < peers.len() ==> (#[trigger] peers[i]).public_key != peers[
        i - 1
    ].public_key
}

} // verus!

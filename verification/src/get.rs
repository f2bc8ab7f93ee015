//! The query-response aggregator: folding the attribute lists of a
//! multi-message dump into one device.
//!
//! A dump answer arrives as a sequence of messages.  The first carries the
//! device-level scalars and the opening of the peer list; each later one
//! carries more peers.  A peer whose allowed-IP list was cut at a message
//! boundary continues in the next message under the same public key, and
//! is recognized by matching the last peer appended so far.  Messages must
//! be fed in delivery order.

use vstd::prelude::*;

use crate::attr::{
    NLM_F_ACK, NLM_F_DUMP, NLM_F_REQUEST, WG_CMD_GET_DEVICE, WG_GENL_VERSION,
    WGALLOWEDIP_A_CIDR_MASK, WGALLOWEDIP_A_FAMILY, WGALLOWEDIP_A_IPADDR, WGDEVICE_A_FLAGS,
    WGDEVICE_A_FWMARK, WGDEVICE_A_IFINDEX, WGDEVICE_A_IFNAME, WGDEVICE_A_LISTEN_PORT,
    WGDEVICE_A_PEERS, WGDEVICE_A_PRIVATE_KEY, WGDEVICE_A_PUBLIC_KEY, WGPEER_A_ALLOWEDIPS,
    WGPEER_A_ENDPOINT, WGPEER_A_FLAGS, WGPEER_A_PERSISTENT_KEEPALIVE_INTERVAL,
    WGPEER_A_PRESHARED_KEY, WGPEER_A_PUBLIC_KEY,
};
use crate::codec::{
    attrs_view, bytes_copy, bytes_eq, bytes_sub, decode_attrs, spec_dec_attrs, spec_read_u16,
    spec_read_u32, spec_read_u8, read_u16, read_u32, read_u8, AttrV, NlAttr,
};
use crate::device::{
    AllowedIp, AllowedIpV, Device, DeviceV, Endpoint, EndpointV, IpAddr, IpAddrV, Peer, PeerFlags,
    PeerV,
};
use crate::endian::{spec_u16_of_be, spec_u16_of_le, u16_from_be, u16_from_le};
use crate::err::{DecodeError, GetDeviceError};
use crate::interface::{iface_wf, string_from_utf8, str_bytes, DeviceInterface, DeviceInterfaceV};

verus! {

// ---------------------------------------------------------------------
// Allowed-ip entries
// ---------------------------------------------------------------------
/// Partial allowed-ip entry while its attributes are folded in.
pub ghost struct IpAcc {
    pub family: Option<u16>,
    pub addr: Option<Seq<u8>>,
    pub cidr: Option<u8>,
}

pub open spec fn ip_acc_empty() -> IpAcc {
    IpAcc { family: None, addr: None, cidr: None }
}

/// One attribute folded into a partial allowed-ip entry.  Unknown tags are
/// ignored; malformed known tags fail.
pub open spec fn spec_ip_step(acc: IpAcc, a: AttrV) -> Result<IpAcc, DecodeError> {
    if a.tag == WGALLOWEDIP_A_FAMILY {
        match spec_read_u16(a.payload) {
            Ok(f) => Ok(IpAcc { family: Some(f), ..acc }),
            Err(e) => Err(e),
        }
    } else if a.tag == WGALLOWEDIP_A_IPADDR {
        Ok(IpAcc { addr: Some(a.payload), ..acc })
    } else if a.tag == WGALLOWEDIP_A_CIDR_MASK {
        match spec_read_u8(a.payload) {
            Ok(c) => Ok(IpAcc { cidr: Some(c), ..acc }),
            Err(e) => Err(e),
        }
    } else {
        Ok(acc)
    }
}

pub open spec fn spec_ip_fold(acc: Result<IpAcc, DecodeError>, attrs: Seq<AttrV>) -> Result<
    IpAcc,
    DecodeError,
>
    decreases attrs.len(),
{
    if attrs.len() == 0 {
        acc
    } else {
        match acc {
            Ok(a) => spec_ip_fold(spec_ip_step(a, attrs[0]), attrs.drop_first()),
            Err(e) => Err(e),
        }
    }
}

pub proof fn lemma_ip_fold_err(e: DecodeError, attrs: Seq<AttrV>)
    ensures
        spec_ip_fold(Err(e), attrs) == Err::<IpAcc, DecodeError>(e),
    decreases attrs.len(),
{
    if attrs.len() > 0 {
        lemma_ip_fold_err(e, attrs.drop_first());
    }
}

/// A complete allowed-ip entry: family, address and prefix must all have
/// arrived, the family must be one of the two supported ones, and the
/// address width must match the family.
pub open spec fn spec_ip_finish(acc: IpAcc) -> Result<AllowedIpV, DecodeError> {
    match (acc.family, acc.addr, acc.cidr) {
        (Some(f), Some(ad), Some(c)) => if f == 2 {
            if ad.len() == 4 {
                Ok(AllowedIpV { addr: IpAddrV::V4(ad), cidr: c })
            } else {
                Err(DecodeError::UnexpectedPayloadSize)
            }
        } else if f == 10 {
            if ad.len() == 16 {
                Ok(AllowedIpV { addr: IpAddrV::V6(ad), cidr: c })
            } else {
                Err(DecodeError::UnexpectedPayloadSize)
            }
        } else {
            Err(DecodeError::UnknownFamily)
        },
        _ => Err(DecodeError::MissingAttribute),
    }
}

/// An allowed-ip entry parsed from its attribute list.
pub open spec fn spec_parse_ip(attrs: Seq<AttrV>) -> Result<AllowedIpV, DecodeError> {
    match spec_ip_fold(Ok(ip_acc_empty()), attrs) {
        Ok(acc) => spec_ip_finish(acc),
        Err(e) => Err(e),
    }
}

/// One child of the allowed-ip container: its payload is itself an
/// attribute list describing one entry.
pub open spec fn spec_parse_ip_child(c: AttrV) -> Result<AllowedIpV, DecodeError> {
    match spec_dec_attrs(c.payload) {
        Ok(attrs) => spec_parse_ip(attrs),
        Err(e) => Err(e),
    }
}

/// All entries of an allowed-ip container, in order.
pub open spec fn spec_ip_list(children: Seq<AttrV>) -> Result<Seq<AllowedIpV>, DecodeError>
    decreases children.len(),
{
    if children.len() == 0 {
        Ok(Seq::empty())
    } else {
        match spec_parse_ip_child(children[0]) {
            Ok(ip) => match spec_ip_list(children.drop_first()) {
                Ok(rest) => Ok(seq![ip] + rest),
                Err(e) => Err(e),
            },
            Err(e) => Err(e),
        }
    }
}

/// Exec mirror of the partial allowed-ip entry.
pub struct IpBuild {
    pub family: Option<u16>,
    pub addr: Option<Vec<u8>>,
    pub cidr: Option<u8>,
}

impl View for IpBuild {
    type V = IpAcc;

    open spec fn view(&self) -> IpAcc {
        IpAcc {
            family: self.family,
            addr: match self.addr {
                Some(ref a) => Some(a@),
                None => None,
            },
            cidr: self.cidr,
        }
    }
}

/// Parse one allowed-ip entry from its decoded attribute list.
pub fn parse_allowed_ip(attrs: &Vec<NlAttr>) -> (r: Result<AllowedIp, DecodeError>)
    ensures
        match (r, spec_parse_ip(attrs_view(attrs@))) {
            (Ok(ip), Ok(ipv)) => ip@ == ipv,
            (Err(e), Err(se)) => e == se,
            _ => false,
        },
{
    let ghost full = attrs_view(attrs@);
    let mut b = IpBuild { family: None, addr: None, cidr: None };
    let mut i: usize = 0;
    proof {
        assert(full.skip(0) =~= full);
    }
    while i < attrs.len()
        invariant
            i <= attrs@.len(),
            full == attrs_view(attrs@),
            spec_ip_fold(Ok(ip_acc_empty()), full) == spec_ip_fold(Ok(b@), full.skip(i as int)),
        decreases attrs@.len() - i,
    {
        proof {
            assert(full.skip(i as int)[0] == full[i as int]);
            assert(full[i as int] == attrs@[i as int]@);
            assert(full.skip(i as int).drop_first() =~= full.skip(i + 1));
        }
        let a = &attrs[i];
        if a.tag == WGALLOWEDIP_A_FAMILY {
            match read_u16(&a.payload) {
                Ok(f) => {
                    b.family = Some(f);
                },
                Err(e) => {
                    proof {
                        lemma_ip_fold_err(e, full.skip(i + 1));
                    }
                    return Err(e);
                },
            }
        } else if a.tag == WGALLOWEDIP_A_IPADDR {
            b.addr = Some(bytes_copy(&a.payload));
        } else if a.tag == WGALLOWEDIP_A_CIDR_MASK {
            match read_u8(&a.payload) {
                Ok(c) => {
                    b.cidr = Some(c);
                },
                Err(e) => {
                    proof {
                        lemma_ip_fold_err(e, full.skip(i + 1));
                    }
                    return Err(e);
                },
            }
        }
        i = i + 1;
    }
    proof {
        assert(full.skip(full.len() as int) =~= Seq::<AttrV>::empty());
    }
    match (b.family, b.addr, b.cidr) {
        (Some(f), Some(ad), Some(c)) => {
            if f == 2 {
                if ad.len() == 4 {
                    Ok(AllowedIp { ipaddr: IpAddr::V4(ad), cidr_mask: Some(c) })
                } else {
                    Err(DecodeError::UnexpectedPayloadSize)
                }
            } else if f == 10 {
                if ad.len() == 16 {
                    Ok(AllowedIp { ipaddr: IpAddr::V6(ad), cidr_mask: Some(c) })
                } else {
                    Err(DecodeError::UnexpectedPayloadSize)
                }
            } else {
                Err(DecodeError::UnknownFamily)
            }
        },
        _ => Err(DecodeError::MissingAttribute),
    }
}

/// Parse every entry of a decoded allowed-ip container.
pub fn parse_ip_children(children: &Vec<NlAttr>) -> (r: Result<Vec<AllowedIp>, DecodeError>)
    ensures
        match (r, spec_ip_list(attrs_view(children@))) {
            (Ok(ips), Ok(s)) => ips@.map_values(|x: AllowedIp| x@) == s,
            (Err(e), Err(se)) => e == se,
            _ => false,
        },
{
    let ghost full = attrs_view(children@);
    let mut out: Vec<AllowedIp> = Vec::new();
    let mut k: usize = 0;
    proof {
        assert(full.skip(0) =~= full);
        if spec_ip_list(full) is Ok {
            assert(out@.map_values(|x: AllowedIp| x@) + spec_ip_list(full).unwrap() =~= spec_ip_list(
                full,
            ).unwrap());
        }
    }
    while k < children.len()
        invariant
            k <= children@.len(),
            full == attrs_view(children@),
            match spec_ip_list(full.skip(k as int)) {
                Ok(rest) => spec_ip_list(full) == Ok::<Seq<AllowedIpV>, DecodeError>(
                    out@.map_values(|x: AllowedIp| x@) + rest,
                ),
                Err(e) => spec_ip_list(full) == Err::<Seq<AllowedIpV>, DecodeError>(e),
            },
        decreases children@.len() - k,
    {
        proof {
            assert(full.skip(k as int)[0] == full[k as int]);
            assert(full[k as int] == children@[k as int]@);
            assert(full.skip(k as int).drop_first() =~= full.skip(k + 1));
        }
        let child_attrs = match decode_attrs(&children[k].payload) {
            Ok(ca) => ca,
            Err(e) => {
                return Err(e);
            },
        };
        let ip = match parse_allowed_ip(&child_attrs) {
            Ok(ip) => ip,
            Err(e) => {
                return Err(e);
            },
        };
        proof {
            let prev = out@.map_values(|x: AllowedIp| x@);
            match spec_ip_list(full.skip(k + 1)) {
                Ok(rest) => {
                    assert(out@.push(ip).map_values(|x: AllowedIp| x@) =~= prev.push(ip@));
                    assert(prev + (seq![ip@] + rest) =~= prev.push(ip@) + rest);
                },
                Err(_) => {},
            }
        }
        out.push(ip);
        k = k + 1;
    }
    proof {
        assert(full.skip(full.len() as int) =~= Seq::<AttrV>::empty());
        assert(out@.map_values(|x: AllowedIp| x@) + Seq::<AllowedIpV>::empty() =~= out@.map_values(
            |x: AllowedIp| x@,
        ));
    }
    Ok(out)
}

// ---------------------------------------------------------------------
// Endpoints
// ---------------------------------------------------------------------
/// A socket-address payload: 16 bytes for the IPv4 form, 28 for the IPv6
/// form, with the family first in host order and the port in network
/// order.
pub open spec fn spec_parse_endpoint(p: Seq<u8>) -> Result<EndpointV, DecodeError> {
    if p.len() == 16 && spec_u16_of_le(p[0], p[1]) == 2 {
        Ok(EndpointV { addr: IpAddrV::V4(p.subrange(4, 8)), port: spec_u16_of_be(p[2], p[3]) })
    } else if p.len() == 28 && spec_u16_of_le(p[0], p[1]) == 10 {
        Ok(EndpointV { addr: IpAddrV::V6(p.subrange(8, 24)), port: spec_u16_of_be(p[2], p[3]) })
    } else {
        Err(DecodeError::UnexpectedPayloadSize)
    }
}

pub fn parse_endpoint(p: &Vec<u8>) -> (r: Result<Endpoint, DecodeError>)
    ensures
        match (r, spec_parse_endpoint(p@)) {
            (Ok(e), Ok(ev)) => e@ == ev,
            (Err(e), Err(se)) => e == se,
            _ => false,
        },
{
    if p.len() == 16 && u16_from_le(p[0], p[1]) == 2 {
        let port = u16_from_be(p[2], p[3]);
        let addr = bytes_sub(p, 4, 8);
        Ok(Endpoint { addr: IpAddr::V4(addr), port })
    } else if p.len() == 28 && u16_from_le(p[0], p[1]) == 10 {
        let port = u16_from_be(p[2], p[3]);
        let addr = bytes_sub(p, 8, 24);
        Ok(Endpoint { addr: IpAddr::V6(addr), port })
    } else {
        Err(DecodeError::UnexpectedPayloadSize)
    }
}

// ---------------------------------------------------------------------
// Peers
// ---------------------------------------------------------------------
/// Peer-level flag bits as carried in the 32-bit flags attribute.
pub open spec fn spec_peer_flags_of(v: u32) -> PeerFlags {
    PeerFlags {
        remove_me: v % 2 == 1,
        replace_allowed_ips: (v / 2) % 2 == 1,
        update_only: (v / 4) % 2 == 1,
    }
}

/// Partial peer while its attributes are folded in.
#[verifier::ext_equal]
pub ghost struct PeerAcc {
    pub public_key: Option<Seq<u8>>,
    pub preshared_key: Option<Seq<u8>>,
    pub endpoint: Option<EndpointV>,
    pub persistent_keepalive_interval: Option<u16>,
    pub allowed_ips: Seq<AllowedIpV>,
    pub flags: PeerFlags,
}

pub open spec fn peer_acc_empty() -> PeerAcc {
    PeerAcc {
        public_key: None,
        preshared_key: None,
        endpoint: None,
        persistent_keepalive_interval: None,
        allowed_ips: Seq::empty(),
        flags: PeerFlags { remove_me: false, replace_allowed_ips: false, update_only: false },
    }
}

/// One attribute folded into a partial peer.  Key payloads must be exactly
/// 32 bytes; an allowed-ip container contributes its entries in order;
/// unknown tags are ignored.
pub open spec fn spec_peer_step(acc: PeerAcc, a: AttrV) -> Result<PeerAcc, DecodeError> {
    if a.tag == WGPEER_A_PUBLIC_KEY {
        if a.payload.len() == 32 {
            Ok(PeerAcc { public_key: Some(a.payload), ..acc })
        } else {
            Err(DecodeError::UnexpectedPayloadSize)
        }
    } else if a.tag == WGPEER_A_PRESHARED_KEY {
        if a.payload.len() == 32 {
            Ok(PeerAcc { preshared_key: Some(a.payload), ..acc })
        } else {
            Err(DecodeError::UnexpectedPayloadSize)
        }
    } else if a.tag == WGPEER_A_ENDPOINT {
        match spec_parse_endpoint(a.payload) {
            Ok(e) => Ok(PeerAcc { endpoint: Some(e), ..acc }),
            Err(e) => Err(e),
        }
    } else if a.tag == WGPEER_A_PERSISTENT_KEEPALIVE_INTERVAL {
        match spec_read_u16(a.payload) {
            Ok(v) => Ok(PeerAcc { persistent_keepalive_interval: Some(v), ..acc }),
            Err(e) => Err(e),
        }
    } else if a.tag == WGPEER_A_FLAGS {
        match spec_read_u32(a.payload) {
            Ok(v) => Ok(PeerAcc { flags: spec_peer_flags_of(v), ..acc }),
            Err(e) => Err(e),
        }
    } else if a.tag == WGPEER_A_ALLOWEDIPS {
        match spec_dec_attrs(a.payload) {
            Ok(children) => match spec_ip_list(children) {
                Ok(ips) => Ok(PeerAcc { allowed_ips: acc.allowed_ips + ips, ..acc }),
                Err(e) => Err(e),
            },
            Err(e) => Err(e),
        }
    } else {
        Ok(acc)
    }
}

pub open spec fn spec_peer_fold(acc: Result<PeerAcc, DecodeError>, attrs: Seq<AttrV>) -> Result<
    PeerAcc,
    DecodeError,
>
    decreases attrs.len(),
{
    if attrs.len() == 0 {
        acc
    } else {
        match acc {
            Ok(a) => spec_peer_fold(spec_peer_step(a, attrs[0]), attrs.drop_first()),
            Err(e) => Err(e),
        }
    }
}

pub proof fn lemma_peer_fold_err(e: DecodeError, attrs: Seq<AttrV>)
    ensures
        spec_peer_fold(Err(e), attrs) == Err::<PeerAcc, DecodeError>(e),
    decreases attrs.len(),
{
    if attrs.len() > 0 {
        lemma_peer_fold_err(e, attrs.drop_first());
    }
}

/// A complete peer: the public key is the one field that must have
/// arrived.
pub open spec fn spec_peer_finish(acc: PeerAcc) -> Result<PeerV, DecodeError> {
    match acc.public_key {
        Some(k) => Ok(
            PeerV {
                public_key: k,
                preshared_key: acc.preshared_key,
                endpoint: acc.endpoint,
                persistent_keepalive_interval: acc.persistent_keepalive_interval,
                allowed_ips: acc.allowed_ips,
                flags: acc.flags,
            },
        ),
        None => Err(DecodeError::MissingAttribute),
    }
}

/// A peer parsed from its attribute list.
pub open spec fn spec_parse_peer(attrs: Seq<AttrV>) -> Result<PeerV, DecodeError> {
    match spec_peer_fold(Ok(peer_acc_empty()), attrs) {
        Ok(acc) => spec_peer_finish(acc),
        Err(e) => Err(e),
    }
}

/// One child of the peer container: its payload is the peer's attribute
/// list.
pub open spec fn spec_parse_peer_child(c: AttrV) -> Result<PeerV, DecodeError> {
    match spec_dec_attrs(c.payload) {
        Ok(attrs) => spec_parse_peer(attrs),
        Err(e) => Err(e),
    }
}

/// All peers of a peer container, in order.
pub open spec fn spec_peer_list(children: Seq<AttrV>) -> Result<Seq<PeerV>, DecodeError>
    decreases children.len(),
{
    if children.len() == 0 {
        Ok(Seq::empty())
    } else {
        match spec_parse_peer_child(children[0]) {
            Ok(p) => match spec_peer_list(children.drop_first()) {
                Ok(rest) => Ok(seq![p] + rest),
                Err(e) => Err(e),
            },
            Err(e) => Err(e),
        }
    }
}

/// Exec mirror of the partial peer.
pub struct PeerBuild {
    pub public_key: Option<Vec<u8>>,
    pub preshared_key: Option<Vec<u8>>,
    pub endpoint: Option<Endpoint>,
    pub persistent_keepalive_interval: Option<u16>,
    pub allowed_ips: Vec<AllowedIp>,
    pub flags: PeerFlags,
}

impl View for PeerBuild {
    type V = PeerAcc;

    open spec fn view(&self) -> PeerAcc {
        PeerAcc {
            public_key: match self.public_key {
                Some(ref k) => Some(k@),
                None => None,
            },
            preshared_key: match self.preshared_key {
                Some(ref k) => Some(k@),
                None => None,
            },
            endpoint: match self.endpoint {
                Some(ref e) => Some(e@),
                None => None,
            },
            persistent_keepalive_interval: self.persistent_keepalive_interval,
            allowed_ips: self.allowed_ips@.map_values(|x: AllowedIp| x@),
            flags: self.flags,
        }
    }
}

/// Parse one peer from its decoded attribute list.
pub fn parse_peer(attrs: &Vec<NlAttr>) -> (r: Result<Peer, DecodeError>)
    ensures
        match (r, spec_parse_peer(attrs_view(attrs@))) {
            (Ok(p), Ok(pv)) => p@ == pv,
            (Err(e), Err(se)) => e == se,
            _ => false,
        },
{
    let ghost full = attrs_view(attrs@);
    let mut b = PeerBuild {
        public_key: None,
        preshared_key: None,
        endpoint: None,
        persistent_keepalive_interval: None,
        allowed_ips: Vec::new(),
        flags: PeerFlags::none(),
    };
    let mut i: usize = 0;
    proof {
        assert(full.skip(0) =~= full);
        assert(b@ =~= peer_acc_empty());
    }
    while i < attrs.len()
        invariant
            i <= attrs@.len(),
            full == attrs_view(attrs@),
            spec_peer_fold(Ok(peer_acc_empty()), full) == spec_peer_fold(
                Ok(b@),
                full.skip(i as int),
            ),
        decreases attrs@.len() - i,
    {
        proof {
            assert(full.skip(i as int)[0] == full[i as int]);
            assert(full[i as int] == attrs@[i as int]@);
            assert(full.skip(i as int).drop_first() =~= full.skip(i + 1));
        }
        let a = &attrs[i];
        if a.tag == WGPEER_A_PUBLIC_KEY {
            if a.payload.len() == 32 {
                b.public_key = Some(bytes_copy(&a.payload));
            } else {
                proof {
                    lemma_peer_fold_err(DecodeError::UnexpectedPayloadSize, full.skip(i + 1));
                }
                return Err(DecodeError::UnexpectedPayloadSize);
            }
        } else if a.tag == WGPEER_A_PRESHARED_KEY {
            if a.payload.len() == 32 {
                b.preshared_key = Some(bytes_copy(&a.payload));
            } else {
                proof {
                    lemma_peer_fold_err(DecodeError::UnexpectedPayloadSize, full.skip(i + 1));
                }
                return Err(DecodeError::UnexpectedPayloadSize);
            }
        } else if a.tag == WGPEER_A_ENDPOINT {
            match parse_endpoint(&a.payload) {
                Ok(e) => {
                    b.endpoint = Some(e);
                },
                Err(e) => {
                    proof {
                        lemma_peer_fold_err(e, full.skip(i + 1));
                    }
                    return Err(e);
                },
            }
        } else if a.tag == WGPEER_A_PERSISTENT_KEEPALIVE_INTERVAL {
            match read_u16(&a.payload) {
                Ok(v) => {
                    b.persistent_keepalive_interval = Some(v);
                },
                Err(e) => {
                    proof {
                        lemma_peer_fold_err(e, full.skip(i + 1));
                    }
                    return Err(e);
                },
            }
        } else if a.tag == WGPEER_A_FLAGS {
            match read_u32(&a.payload) {
                Ok(v) => {
                    b.flags = PeerFlags {
                        remove_me: v % 2 == 1,
                        replace_allowed_ips: (v / 2) % 2 == 1,
                        update_only: (v / 4) % 2 == 1,
                    };
                },
                Err(e) => {
                    proof {
                        lemma_peer_fold_err(e, full.skip(i + 1));
                    }
                    return Err(e);
                },
            }
        } else if a.tag == WGPEER_A_ALLOWEDIPS {
            let children = match decode_attrs(&a.payload) {
                Ok(cs) => cs,
                Err(e) => {
                    proof {
                        lemma_peer_fold_err(e, full.skip(i + 1));
                    }
                    return Err(e);
                },
            };
            match parse_ip_children(&children) {
                Ok(mut ips) => {
                    proof {
                        assert((b.allowed_ips@ + ips@).map_values(|x: AllowedIp| x@)
                            =~= b.allowed_ips@.map_values(|x: AllowedIp| x@) + ips@.map_values(
                            |x: AllowedIp| x@,
                        ));
                    }
                    b.allowed_ips.append(&mut ips);
                },
                Err(e) => {
                    proof {
                        lemma_peer_fold_err(e, full.skip(i + 1));
                    }
                    return Err(e);
                },
            }
        }
        i = i + 1;
    }
    proof {
        assert(full.skip(full.len() as int) =~= Seq::<AttrV>::empty());
    }
    match b.public_key {
        Some(k) => Ok(
            Peer {
                public_key: k,
                preshared_key: b.preshared_key,
                endpoint: b.endpoint,
                persistent_keepalive_interval: b.persistent_keepalive_interval,
                allowed_ips: b.allowed_ips,
                flags: b.flags,
            },
        ),
        None => Err(DecodeError::MissingAttribute),
    }
}

/// Parse every peer of a decoded peer container.
pub fn parse_peer_children(children: &Vec<NlAttr>) -> (r: Result<Vec<Peer>, DecodeError>)
    ensures
        match (r, spec_peer_list(attrs_view(children@))) {
            (Ok(ps), Ok(s)) => ps@.map_values(|x: Peer| x@) == s,
            (Err(e), Err(se)) => e == se,
            _ => false,
        },
{
    let ghost full = attrs_view(children@);
    let mut out: Vec<Peer> = Vec::new();
    let mut k: usize = 0;
    proof {
        assert(full.skip(0) =~= full);
        if spec_peer_list(full) is Ok {
            assert(out@.map_values(|x: Peer| x@) + spec_peer_list(full).unwrap()
                =~= spec_peer_list(full).unwrap());
        }
    }
    while k < children.len()
        invariant
            k <= children@.len(),
            full == attrs_view(children@),
            match spec_peer_list(full.skip(k as int)) {
                Ok(rest) => spec_peer_list(full) == Ok::<Seq<PeerV>, DecodeError>(
                    out@.map_values(|x: Peer| x@) + rest,
                ),
                Err(e) => spec_peer_list(full) == Err::<Seq<PeerV>, DecodeError>(e),
            },
        decreases children@.len() - k,
    {
        proof {
            assert(full.skip(k as int)[0] == full[k as int]);
            assert(full[k as int] == children@[k as int]@);
            assert(full.skip(k as int).drop_first() =~= full.skip(k + 1));
        }
        let child_attrs = match decode_attrs(&children[k].payload) {
            Ok(ca) => ca,
            Err(e) => {
                return Err(e);
            },
        };
        let p = match parse_peer(&child_attrs) {
            Ok(p) => p,
            Err(e) => {
                return Err(e);
            },
        };
        proof {
            let prev = out@.map_values(|x: Peer| x@);
            match spec_peer_list(full.skip(k + 1)) {
                Ok(rest) => {
                    assert(out@.push(p).map_values(|x: Peer| x@) =~= prev.push(p@));
                    assert(prev + (seq![p@] + rest) =~= prev.push(p@) + rest);
                },
                Err(_) => {},
            }
        }
        out.push(p);
        k = k + 1;
    }
    proof {
        assert(full.skip(full.len() as int) =~= Seq::<AttrV>::empty());
        assert(out@.map_values(|x: Peer| x@) + Seq::<PeerV>::empty() =~= out@.map_values(
            |x: Peer| x@,
        ));
    }
    Ok(out)
}

// ---------------------------------------------------------------------
// Devices and the multi-message merge
// ---------------------------------------------------------------------
/// A name payload with its trailing terminator removed, if one is there.
pub open spec fn spec_strip_nul(b: Seq<u8>) -> Seq<u8> {
    if b.len() > 0 && b[b.len() - 1] == 0 {
        b.subrange(0, b.len() - 1)
    } else {
        b
    }
}

pub fn strip_nul(p: &Vec<u8>) -> (r: Vec<u8>)
    ensures
        r@ == spec_strip_nul(p@),
{
    if p.len() > 0 && p[p.len() - 1] == 0 {
        bytes_sub(p, 0, p.len() - 1)
    } else {
        let r = bytes_sub(p, 0, p.len());
        proof {
            assert(p@.subrange(0, p@.len() as int) =~= p@);
        }
        r
    }
}

/// Partial device while a message's attributes are folded in.
#[verifier::ext_equal]
pub ghost struct DevAcc {
    pub ifindex: Option<u32>,
    pub ifname: Option<Seq<u8>>,
    pub private_key: Option<Seq<u8>>,
    pub public_key: Option<Seq<u8>>,
    pub listen_port: Option<u16>,
    pub fwmark: Option<u32>,
    pub peers: Seq<PeerV>,
    pub replace_peers: bool,
}

pub open spec fn dev_acc_empty() -> DevAcc {
    DevAcc {
        ifindex: None,
        ifname: None,
        private_key: None,
        public_key: None,
        listen_port: None,
        fwmark: None,
        peers: Seq::empty(),
        replace_peers: false,
    }
}

/// One attribute folded into a partial device.  A name must be valid text
/// once its terminator is stripped; keys must be 32 bytes; a peer
/// container contributes its peers in order; unknown tags are ignored.
pub open spec fn spec_dev_step(acc: DevAcc, a: AttrV) -> Result<DevAcc, DecodeError> {
    if a.tag == WGDEVICE_A_IFINDEX {
        match spec_read_u32(a.payload) {
            Ok(v) => Ok(DevAcc { ifindex: Some(v), ..acc }),
            Err(e) => Err(e),
        }
    } else if a.tag == WGDEVICE_A_IFNAME {
        if vstd::utf8::valid_utf8(spec_strip_nul(a.payload)) {
            Ok(DevAcc { ifname: Some(spec_strip_nul(a.payload)), ..acc })
        } else {
            Err(DecodeError::BadString)
        }
    } else if a.tag == WGDEVICE_A_PRIVATE_KEY {
        if a.payload.len() == 32 {
            Ok(DevAcc { private_key: Some(a.payload), ..acc })
        } else {
            Err(DecodeError::UnexpectedPayloadSize)
        }
    } else if a.tag == WGDEVICE_A_PUBLIC_KEY {
        if a.payload.len() == 32 {
            Ok(DevAcc { public_key: Some(a.payload), ..acc })
        } else {
            Err(DecodeError::UnexpectedPayloadSize)
        }
    } else if a.tag == WGDEVICE_A_LISTEN_PORT {
        match spec_read_u16(a.payload) {
            Ok(v) => Ok(DevAcc { listen_port: Some(v), ..acc }),
            Err(e) => Err(e),
        }
    } else if a.tag == WGDEVICE_A_FWMARK {
        match spec_read_u32(a.payload) {
            Ok(v) => Ok(DevAcc { fwmark: Some(v), ..acc }),
            Err(e) => Err(e),
        }
    } else if a.tag == WGDEVICE_A_FLAGS {
        match spec_read_u32(a.payload) {
            Ok(v) => Ok(DevAcc { replace_peers: v % 2 == 1, ..acc }),
            Err(e) => Err(e),
        }
    } else if a.tag == WGDEVICE_A_PEERS {
        match spec_dec_attrs(a.payload) {
            Ok(children) => match spec_peer_list(children) {
                Ok(ps) => Ok(DevAcc { peers: acc.peers + ps, ..acc }),
                Err(e) => Err(e),
            },
            Err(e) => Err(e),
        }
    } else {
        Ok(acc)
    }
}

pub open spec fn spec_dev_fold(acc: Result<DevAcc, DecodeError>, attrs: Seq<AttrV>) -> Result<
    DevAcc,
    DecodeError,
>
    decreases attrs.len(),
{
    if attrs.len() == 0 {
        acc
    } else {
        match acc {
            Ok(a) => spec_dev_fold(spec_dev_step(a, attrs[0]), attrs.drop_first()),
            Err(e) => Err(e),
        }
    }
}

pub proof fn lemma_dev_fold_err(e: DecodeError, attrs: Seq<AttrV>)
    ensures
        spec_dev_fold(Err(e), attrs) == Err::<DevAcc, DecodeError>(e),
    decreases attrs.len(),
{
    if attrs.len() > 0 {
        lemma_dev_fold_err(e, attrs.drop_first());
    }
}

/// A complete device: an interface identity must have arrived, a name
/// winning over an index when both did.
pub open spec fn spec_dev_finish(acc: DevAcc) -> Result<DeviceV, DecodeError> {
    let iface = match acc.ifname {
        Some(n) => Some(DeviceInterfaceV::Name(n)),
        None => match acc.ifindex {
            Some(i) => Some(DeviceInterfaceV::Index(i)),
            None => None,
        },
    };
    match iface {
        Some(i) => Ok(
            DeviceV {
                interface: i,
                private_key: acc.private_key,
                public_key: acc.public_key,
                listen_port: acc.listen_port,
                fwmark: acc.fwmark,
                peers: acc.peers,
                replace_peers: acc.replace_peers,
            },
        ),
        None => Err(DecodeError::MissingAttribute),
    }
}

/// A device parsed from the first message of a dump.
pub open spec fn spec_parse_device(attrs: Seq<AttrV>) -> Result<DeviceV, DecodeError> {
    match spec_dev_fold(Ok(dev_acc_empty()), attrs) {
        Ok(acc) => spec_dev_finish(acc),
        Err(e) => Err(e),
    }
}

/// Peers of a later message appended onto the peers seen so far.  When
/// the first new peer carries the same public key as the last one seen,
/// it is the continuation of that peer cut at the message boundary: its
/// allowed addresses are appended to it and its other fields are ignored.
pub open spec fn spec_coalesce(old: Seq<PeerV>, new: Seq<PeerV>) -> Seq<PeerV> {
    if old.len() > 0 && new.len() > 0 && new[0].public_key == old.last().public_key {
        old.update(
            old.len() - 1,
            PeerV { allowed_ips: old.last().allowed_ips + new[0].allowed_ips, ..old.last() },
        ) + new.drop_first()
    } else {
        old + new
    }
}

/// A later message of the dump merged into the device built so far: its
/// device-level scalars are ignored, its peers are appended.
pub open spec fn spec_extend(d: DeviceV, attrs: Seq<AttrV>) -> Result<DeviceV, DecodeError> {
    match spec_dev_fold(Ok(dev_acc_empty()), attrs) {
        Ok(acc) => Ok(DeviceV { peers: spec_coalesce(d.peers, acc.peers), ..d }),
        Err(e) => Err(e),
    }
}

/// One message merged into the accumulator: the first message builds the
/// device, every later one extends it.
pub open spec fn spec_merge(acc: Option<DeviceV>, attrs: Seq<AttrV>) -> Result<
    DeviceV,
    DecodeError,
> {
    match acc {
        None => spec_parse_device(attrs),
        Some(d) => spec_extend(d, attrs),
    }
}

/// A whole message sequence merged in delivery order.
pub open spec fn spec_merge_seq(acc: Option<DeviceV>, msgs: Seq<Seq<AttrV>>) -> Result<
    Option<DeviceV>,
    DecodeError,
>
    decreases msgs.len(),
{
    if msgs.len() == 0 {
        Ok(acc)
    } else {
        match spec_merge(acc, msgs[0]) {
            Ok(d) => spec_merge_seq(Some(d), msgs.drop_first()),
            Err(e) => Err(e),
        }
    }
}

/// Feeding the aggregator the same message sequence twice, in the same
/// order and from the same starting state, yields the same device: the
/// outcome is a function of the message sequence alone.  No such promise
/// holds for a reordered sequence.
pub proof fn lemma_merge_deterministic(
    acc: Option<DeviceV>,
    msgs1: Seq<Seq<AttrV>>,
    msgs2: Seq<Seq<AttrV>>,
)
    requires
        msgs1 == msgs2,
    ensures
        spec_merge_seq(acc, msgs1) == spec_merge_seq(acc, msgs2),
{
}

/// Exec mirror of the partial device.
pub struct DevBuild {
    pub ifindex: Option<u32>,
    pub ifname: Option<String>,
    pub private_key: Option<Vec<u8>>,
    pub public_key: Option<Vec<u8>>,
    pub listen_port: Option<u16>,
    pub fwmark: Option<u32>,
    pub peers: Vec<Peer>,
    pub replace_peers: bool,
}

impl View for DevBuild {
    type V = DevAcc;

    open spec fn view(&self) -> DevAcc {
        DevAcc {
            ifindex: self.ifindex,
            ifname: match self.ifname {
                Some(ref s) => Some(str_bytes(s@)),
                None => None,
            },
            private_key: match self.private_key {
                Some(ref k) => Some(k@),
                None => None,
            },
            public_key: match self.public_key {
                Some(ref k) => Some(k@),
                None => None,
            },
            listen_port: self.listen_port,
            fwmark: self.fwmark,
            peers: self.peers@.map_values(|p: Peer| p@),
            replace_peers: self.replace_peers,
        }
    }
}

/// Fold one message's attribute list into a fresh partial device.
pub fn parse_fragment(attrs: &Vec<NlAttr>) -> (r: Result<DevBuild, DecodeError>)
    ensures
        match (r, spec_dev_fold(Ok(dev_acc_empty()), attrs_view(attrs@))) {
            (Ok(b), Ok(acc)) => b@ == acc,
            (Err(e), Err(se)) => e == se,
            _ => false,
        },
{
    let ghost full = attrs_view(attrs@);
    let mut b = DevBuild {
        ifindex: None,
        ifname: None,
        private_key: None,
        public_key: None,
        listen_port: None,
        fwmark: None,
        peers: Vec::new(),
        replace_peers: false,
    };
    let mut i: usize = 0;
    proof {
        assert(full.skip(0) =~= full);
        assert(b@ =~= dev_acc_empty());
    }
    while i < attrs.len()
        invariant
            i <= attrs@.len(),
            full == attrs_view(attrs@),
            spec_dev_fold(Ok(dev_acc_empty()), full) == spec_dev_fold(
                Ok(b@),
                full.skip(i as int),
            ),
        decreases attrs@.len() - i,
    {
        proof {
            assert(full.skip(i as int)[0] == full[i as int]);
            assert(full[i as int] == attrs@[i as int]@);
            assert(full.skip(i as int).drop_first() =~= full.skip(i + 1));
        }
        let a = &attrs[i];
        if a.tag == WGDEVICE_A_IFINDEX {
            match read_u32(&a.payload) {
                Ok(v) => {
                    b.ifindex = Some(v);
                },
                Err(e) => {
                    proof {
                        lemma_dev_fold_err(e, full.skip(i + 1));
                    }
                    return Err(e);
                },
            }
        } else if a.tag == WGDEVICE_A_IFNAME {
            let stripped = strip_nul(&a.payload);
            match string_from_utf8(stripped) {
                Some(s) => {
                    b.ifname = Some(s);
                },
                None => {
                    proof {
                        lemma_dev_fold_err(DecodeError::BadString, full.skip(i + 1));
                    }
                    return Err(DecodeError::BadString);
                },
            }
        } else if a.tag == WGDEVICE_A_PRIVATE_KEY {
            if a.payload.len() == 32 {
                b.private_key = Some(bytes_copy(&a.payload));
            } else {
                proof {
                    lemma_dev_fold_err(DecodeError::UnexpectedPayloadSize, full.skip(i + 1));
                }
                return Err(DecodeError::UnexpectedPayloadSize);
            }
        } else if a.tag == WGDEVICE_A_PUBLIC_KEY {
            if a.payload.len() == 32 {
                b.public_key = Some(bytes_copy(&a.payload));
            } else {
                proof {
                    lemma_dev_fold_err(DecodeError::UnexpectedPayloadSize, full.skip(i + 1));
                }
                return Err(DecodeError::UnexpectedPayloadSize);
            }
        } else if a.tag == WGDEVICE_A_LISTEN_PORT {
            match read_u16(&a.payload) {
                Ok(v) => {
                    b.listen_port = Some(v);
                },
                Err(e) => {
                    proof {
                        lemma_dev_fold_err(e, full.skip(i + 1));
                    }
                    return Err(e);
                },
            }
        } else if a.tag == WGDEVICE_A_FWMARK {
            match read_u32(&a.payload) {
                Ok(v) => {
                    b.fwmark = Some(v);
                },
                Err(e) => {
                    proof {
                        lemma_dev_fold_err(e, full.skip(i + 1));
                    }
                    return Err(e);
                },
            }
        } else if a.tag == WGDEVICE_A_FLAGS {
            match read_u32(&a.payload) {
                Ok(v) => {
                    b.replace_peers = v % 2 == 1;
                },
                Err(e) => {
                    proof {
                        lemma_dev_fold_err(e, full.skip(i + 1));
                    }
                    return Err(e);
                },
            }
        } else if a.tag == WGDEVICE_A_PEERS {
            let children = match decode_attrs(&a.payload) {
                Ok(cs) => cs,
                Err(e) => {
                    proof {
                        lemma_dev_fold_err(e, full.skip(i + 1));
                    }
                    return Err(e);
                },
            };
            match parse_peer_children(&children) {
                Ok(mut ps) => {
                    proof {
                        assert((b.peers@ + ps@).map_values(|p: Peer| p@) =~= b.peers@.map_values(
                            |p: Peer| p@,
                        ) + ps@.map_values(|p: Peer| p@));
                    }
                    b.peers.append(&mut ps);
                },
                Err(e) => {
                    proof {
                        lemma_dev_fold_err(e, full.skip(i + 1));
                    }
                    return Err(e);
                },
            }
        }
        i = i + 1;
    }
    proof {
        assert(full.skip(full.len() as int) =~= Seq::<AttrV>::empty());
    }
    Ok(b)
}

/// Build a device from the first message of a dump.
pub fn parse_device(attrs: &Vec<NlAttr>) -> (r: Result<Device, DecodeError>)
    ensures
        match (r, spec_parse_device(attrs_view(attrs@))) {
            (Ok(d), Ok(dv)) => d@ == dv,
            (Err(e), Err(se)) => e == se,
            _ => false,
        },
{
    let b = match parse_fragment(attrs) {
        Ok(b) => b,
        Err(e) => {
            return Err(e);
        },
    };
    let DevBuild { ifindex, ifname, private_key, public_key, listen_port, fwmark, peers, replace_peers } = b;
    let interface = match ifname {
        Some(s) => DeviceInterface::Name(s),
        None => match ifindex {
            Some(i) => DeviceInterface::Index(i),
            None => {
                return Err(DecodeError::MissingAttribute);
            },
        },
    };
    Ok(
        Device {
            interface,
            private_key,
            public_key,
            listen_port,
            fwmark,
            peers,
            replace_peers,
        },
    )
}

/// Merge a later message of the dump into the device built so far.
pub fn extend_device(device: Device, attrs: &Vec<NlAttr>) -> (r: Result<Device, DecodeError>)
    ensures
        match (r, spec_extend(device@, attrs_view(attrs@))) {
            (Ok(d), Ok(dv)) => d@ == dv,
            (Err(e), Err(se)) => e == se,
            _ => false,
        },
{
    let b = match parse_fragment(attrs) {
        Ok(b) => b,
        Err(e) => {
            return Err(e);
        },
    };
    let Device { interface, private_key, public_key, listen_port, fwmark, peers, replace_peers } =
        device;
    let ghost old_peers = peers@.map_values(|p: Peer| p@);
    let ghost new_peers = b.peers@.map_values(|p: Peer| p@);
    let mut peers = peers;
    let mut ps = b.peers;
    if peers.len() > 0 && ps.len() > 0 && bytes_eq(
        &ps[0].public_key,
        &peers[peers.len() - 1].public_key,
    ) {
        proof {
            assert(new_peers[0] == ps@[0]@);
            assert(old_peers.last() == peers@[peers@.len() - 1]@);
        }
        let p0 = ps.remove(0);
        let mut last = match peers.pop() {
            Some(l) => l,
            None => {
                proof {
                    assert(false);
                }
                return Err(DecodeError::MissingAttribute);
            },
        };
        let mut ips0 = p0.allowed_ips;
        proof {
            assert((last.allowed_ips@ + ips0@).map_values(|x: AllowedIp| x@)
                =~= last.allowed_ips@.map_values(|x: AllowedIp| x@) + ips0@.map_values(
                |x: AllowedIp| x@,
            ));
        }
        last.allowed_ips.append(&mut ips0);
        peers.push(last);
        proof {
            let merged = PeerV {
                allowed_ips: old_peers.last().allowed_ips + new_peers[0].allowed_ips,
                ..old_peers.last()
            };
            assert(peers@.map_values(|p: Peer| p@) =~= old_peers.update(
                old_peers.len() - 1,
                merged,
            ));
            assert(ps@.map_values(|p: Peer| p@) =~= new_peers.drop_first());
        }
        let mut ps2 = ps;
        proof {
            assert((peers@ + ps2@).map_values(|p: Peer| p@) =~= peers@.map_values(|p: Peer| p@)
                + ps2@.map_values(|p: Peer| p@));
        }
        peers.append(&mut ps2);
        proof {
            assert(peers@.map_values(|p: Peer| p@) =~= spec_coalesce(old_peers, new_peers));
        }
        Ok(Device { interface, private_key, public_key, listen_port, fwmark, peers, replace_peers })
    } else {
        proof {
            if old_peers.len() > 0 && new_peers.len() > 0 {
                assert(new_peers[0] == ps@[0]@);
                assert(old_peers.last() == peers@[peers@.len() - 1]@);
            }
            assert((peers@ + ps@).map_values(|p: Peer| p@) =~= peers@.map_values(|p: Peer| p@)
                + ps@.map_values(|p: Peer| p@));
        }
        let mut ps2 = ps;
        peers.append(&mut ps2);
        proof {
            assert(peers@.map_values(|p: Peer| p@) =~= spec_coalesce(old_peers, new_peers));
        }
        Ok(Device { interface, private_key, public_key, listen_port, fwmark, peers, replace_peers })
    }
}

/// The device view held by an optional accumulator.
pub open spec fn opt_dev_view(acc: Option<Device>) -> Option<DeviceV> {
    match acc {
        Some(d) => Some(d@),
        None => None,
    }
}

/// Merge one decoded message into the aggregation state: the first
/// message of a dump builds the device, every later one extends it.
pub fn merge(acc: Option<Device>, attrs: &Vec<NlAttr>) -> (r: Result<Device, DecodeError>)
    ensures
        match (r, spec_merge(opt_dev_view(acc), attrs_view(attrs@))) {
            (Ok(d), Ok(dv)) => d@ == dv,
            (Err(e), Err(se)) => e == se,
            _ => false,
        },
{
    match acc {
        None => parse_device(attrs),
        Some(d) => extend_device(d, attrs),
    }
}

/// Build the request that asks the kernel to describe one device: the
/// get command with the interface identity as its only attribute.  A
/// name outside the length bounds is rejected before any I/O.
pub fn build_get_device_request(interface: &DeviceInterface, family_id: u16) -> (r: Result<
    crate::set::WgMessage,
    GetDeviceError,
>)
    ensures
        r is Ok <==> iface_wf(interface@),
        match r {
            Ok(m) => m.family_id == family_id && m.cmd == WG_CMD_GET_DEVICE && m.version
                == WG_GENL_VERSION && m.nl_flags == NLM_F_REQUEST | NLM_F_ACK | NLM_F_DUMP
                && attrs_view(m.attrs@) == seq![crate::set::spec_iface_attr(interface@)],
            Err(e) => e matches GetDeviceError::InvalidInterfaceName,
        },
{
    if !interface.is_valid() {
        return Err(GetDeviceError::InvalidInterfaceName);
    }
    let mut attrs: Vec<NlAttr> = Vec::new();
    attrs.push(crate::set::build_iface_attr(interface));
    proof {
        assert(attrs_view(attrs@) =~= seq![crate::set::spec_iface_attr(interface@)]);
    }
    Ok(
        crate::set::WgMessage {
            family_id,
            cmd: WG_CMD_GET_DEVICE,
            version: WG_GENL_VERSION,
            nl_flags: NLM_F_REQUEST | NLM_F_ACK | NLM_F_DUMP,
            attrs,
        },
    )
}

/// One message of a dump response stream, as the transport layer hands
/// it up.
pub enum DumpMsg {
    /// A kernel-reported error marker.
    Error,
    /// The terminal done marker.
    Done,
    /// The stream ended without a terminal marker.
    Ended,
    /// A data message's decoded attribute list.
    Payload(Vec<NlAttr>),
}

/// What the dump loop does next.
pub enum DumpStep {
    /// Keep receiving, holding the device merged so far.
    Continue(Option<Device>),
    /// The dump finished; this is the device.
    Finished(Device),
    /// The dump failed; stop receiving.
    Failed(GetDeviceError),
}

/// One decision of the get-device dump loop.  An error marker aborts the
/// whole query with an access error; the done marker ends it, failing if
/// no message carried the device-level fields; a stream that ends
/// without a terminal marker is treated as a fatal stream error, never a
/// quiet success; a data message is merged in delivery order.
pub fn get_device_dump_step(acc: Option<Device>, msg: DumpMsg) -> (r: DumpStep)
    ensures
        msg is Error ==> (r matches DumpStep::Failed(GetDeviceError::AccessError)),
        msg is Ended ==> (r matches DumpStep::Failed(GetDeviceError::AccessError)),
        msg is Done ==> match acc {
            Some(d) => (r matches DumpStep::Finished(d2) && d2 == d),
            None => (r matches DumpStep::Failed(GetDeviceError::AccessError)),
        },
        (match msg {
            DumpMsg::Payload(attrs) => match spec_merge(opt_dev_view(acc), attrs_view(attrs@)) {
                Ok(dv) => (r matches DumpStep::Continue(a2) && a2 matches Some(d2) && d2@ == dv),
                Err(e) => (r matches DumpStep::Failed(GetDeviceError::Decode(e2)) && e2 == e),
            },
            _ => true,
        }),
{
    match msg {
        DumpMsg::Error => DumpStep::Failed(GetDeviceError::AccessError),
        DumpMsg::Ended => DumpStep::Failed(GetDeviceError::AccessError),
        DumpMsg::Done => match acc {
            Some(d) => DumpStep::Finished(d),
            None => DumpStep::Failed(GetDeviceError::AccessError),
        },
        DumpMsg::Payload(attrs) => match merge(acc, &attrs) {
            Ok(d) => DumpStep::Continue(Some(d)),
            Err(e) => DumpStep::Failed(GetDeviceError::Decode(e)),
        },
    }
}

} // verus!


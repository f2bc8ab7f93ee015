//! The configuration fragmenter: serializing a device mutation into an
//! ordered sequence of wire messages that honor the transport's size
//! ceiling.
//!
//! Peers are packed greedily into successive messages; the device-level
//! scalars travel only in the first message, every later message carries
//! only the interface identity for correlation.  A peer whose allowed-IP
//! list alone exceeds the ceiling is split: continuation fragments carry
//! only its public key and the next slice of addresses, and never
//! re-assert the replace-allowed-IPs flag.  Messages must be sent, and
//! acknowledged, in the order returned; a failure mid-sequence leaves the
//! device partially updated.

use vstd::prelude::*;

use crate::attr::{
    NLM_F_ACK, NLM_F_REQUEST, WGALLOWEDIP_A_CIDR_MASK, WGALLOWEDIP_A_FAMILY, WGALLOWEDIP_A_IPADDR,
    WGDEVICE_A_FLAGS, WGDEVICE_A_FWMARK, WGDEVICE_A_IFINDEX, WGDEVICE_A_IFNAME,
    WGDEVICE_A_LISTEN_PORT, WGDEVICE_A_PEERS, WGDEVICE_A_PRIVATE_KEY, WGDEVICE_A_PUBLIC_KEY,
    WGPEER_A_ALLOWEDIPS, WGPEER_A_ENDPOINT, WGPEER_A_FLAGS,
    WGPEER_A_PERSISTENT_KEEPALIVE_INTERVAL, WGPEER_A_PRESHARED_KEY, WGPEER_A_PUBLIC_KEY,
    WG_CMD_SET_DEVICE, WG_GENL_VERSION,
};
use crate::codec::{
    attr_wf, attrs_view, attrs_wf, bytes_copy, encode_attr_onto, encode_attrs,
    lemma_attrs_wf_concat, lemma_dec_enc, lemma_enc_attrs_push, spec_dec_attrs,
    spec_enc_attr, spec_enc_attr_len, spec_enc_attrs, spec_zeros, AttrV, NlAttr,
};
use crate::device::{
    allowed_ip_wf, device_wf, endpoint_wf, ip_wf, peer_wf, peers_adjacent_distinct, AllowedIp,
    AllowedIpV, Device, DeviceV, Endpoint, EndpointV, IpAddr, IpAddrV, Peer, PeerFlags, PeerV,
};
use crate::endian::{
    lemma_u16_be_round_trip, lemma_u16_le_round_trip, lemma_u32_le_round_trip, spec_u16_be,
    spec_u16_le, spec_u32_le, u16_to_be, u16_to_le, u32_to_le,
};
use crate::err::{BuildError, DecodeError};
use crate::get::{
    dev_acc_empty, ip_acc_empty, peer_acc_empty, spec_dev_finish, spec_dev_fold, spec_dev_step,
    spec_ip_fold, spec_ip_list, spec_ip_step, spec_merge, spec_parse_endpoint, spec_parse_ip,
    spec_coalesce, spec_merge_seq, spec_parse_ip_child, spec_parse_peer, spec_parse_peer_child,
    spec_peer_fold, spec_peer_list, spec_peer_step, spec_strip_nul, DevAcc, IpAcc, PeerAcc,
};
use crate::interface::{iface_wf, str_bytes, DeviceInterface, DeviceInterfaceV};
use crate::spec_align4;

verus! {

/// Ceiling on the encoded attribute area of one message: the transport
/// refuses larger messages, so a device that does not fit is split.
pub const MAX_GENL_PAYLOAD_LENGTH: usize = 4076;

// ---------------------------------------------------------------------
// The wire form of each model item
// ---------------------------------------------------------------------
/// Address family number of an address.
pub open spec fn spec_family_of(a: IpAddrV) -> u16 {
    match a {
        IpAddrV::V4(_) => 2,
        IpAddrV::V6(_) => 10,
    }
}

/// Raw bytes of an address.
pub open spec fn spec_ip_bytes(a: IpAddrV) -> Seq<u8> {
    match a {
        IpAddrV::V4(b) => b,
        IpAddrV::V6(b) => b,
    }
}

/// The three attributes of one allowed-ip entry.
pub open spec fn spec_ip_entry_attrs(ip: AllowedIpV) -> Seq<AttrV> {
    seq![
        AttrV {
            tag: WGALLOWEDIP_A_FAMILY,
            nested: false,
            payload: spec_u16_le(spec_family_of(ip.addr)),
        },
        AttrV { tag: WGALLOWEDIP_A_IPADDR, nested: false, payload: spec_ip_bytes(ip.addr) },
        AttrV { tag: WGALLOWEDIP_A_CIDR_MASK, nested: false, payload: seq![ip.cidr] },
    ]
}

/// One allowed-ip entry as a nested child of the allowed-ip container.
pub open spec fn spec_ip_attr(ip: AllowedIpV) -> AttrV {
    AttrV { tag: 0, nested: true, payload: spec_enc_attrs(spec_ip_entry_attrs(ip)) }
}

/// Encoded size of one allowed-ip entry: a fixed 28 bytes for the IPv4
/// form, 40 for the IPv6 form.
pub open spec fn spec_ip_attr_len(ip: AllowedIpV) -> int {
    match ip.addr {
        IpAddrV::V4(_) => 28,
        IpAddrV::V6(_) => 40,
    }
}

/// The entries of an allowed-ip list, each as a container child.
pub open spec fn spec_ip_attrs(ips: Seq<AllowedIpV>) -> Seq<AttrV> {
    ips.map_values(|ip: AllowedIpV| spec_ip_attr(ip))
}

/// The allowed-ip container attribute of one peer fragment.
pub open spec fn spec_aips_attr(ips: Seq<AllowedIpV>) -> AttrV {
    AttrV { tag: WGPEER_A_ALLOWEDIPS, nested: true, payload: spec_enc_attrs(spec_ip_attrs(ips)) }
}

/// A socket address serialized as the kernel structure: family, port in
/// network order, then the address (the IPv6 form carries zero flow and
/// scope fields).
pub open spec fn spec_endpoint_bytes(e: EndpointV) -> Seq<u8> {
    match e.addr {
        IpAddrV::V4(b) => spec_u16_le(2) + spec_u16_be(e.port) + b + spec_zeros(8),
        IpAddrV::V6(b) => spec_u16_le(10) + spec_u16_be(e.port) + spec_zeros(4) + b + spec_zeros(
            4,
        ),
    }
}

/// The peer flag bits as the 32-bit flags attribute carries them.
pub open spec fn spec_peer_flags_bits(f: PeerFlags) -> u32 {
    ((if f.remove_me {
        1int
    } else {
        0int
    }) + (if f.replace_allowed_ips {
        2int
    } else {
        0int
    }) + (if f.update_only {
        4int
    } else {
        0int
    })) as u32
}

/// The fixed (non-address) attributes of a peer fragment.  The first
/// fragment of a peer carries every field the peer holds; a continuation
/// fragment carries only the public key, so that the replace-allowed-IPs
/// semantics cannot be re-asserted and erase addresses already delivered.
pub open spec fn spec_peer_fixed_attrs(p: PeerV, cont: bool) -> Seq<AttrV> {
    seq![AttrV { tag: WGPEER_A_PUBLIC_KEY, nested: false, payload: p.public_key }] + if cont {
        Seq::<AttrV>::empty()
    } else {
        (match p.preshared_key {
            Some(k) => seq![AttrV { tag: WGPEER_A_PRESHARED_KEY, nested: false, payload: k }],
            None => Seq::<AttrV>::empty(),
        }) + (match p.endpoint {
            Some(e) => seq![
                AttrV { tag: WGPEER_A_ENDPOINT, nested: false, payload: spec_endpoint_bytes(e) },
            ],
            None => Seq::<AttrV>::empty(),
        }) + (match p.persistent_keepalive_interval {
            Some(v) => seq![
                AttrV {
                    tag: WGPEER_A_PERSISTENT_KEEPALIVE_INTERVAL,
                    nested: false,
                    payload: spec_u16_le(v),
                },
            ],
            None => Seq::<AttrV>::empty(),
        }) + (if spec_peer_flags_bits(p.flags) != 0 {
            seq![
                AttrV {
                    tag: WGPEER_A_FLAGS,
                    nested: false,
                    payload: spec_u32_le(spec_peer_flags_bits(p.flags)),
                },
            ]
        } else {
            Seq::<AttrV>::empty()
        })
    }
}

/// The attribute list of one peer fragment carrying the address slice
/// `[j0, j1)`.
pub open spec fn spec_peer_frag_attrs(p: PeerV, j0: int, j1: int, cont: bool) -> Seq<AttrV> {
    spec_peer_fixed_attrs(p, cont) + if j0 < j1 {
        seq![spec_aips_attr(p.allowed_ips.subrange(j0, j1))]
    } else {
        Seq::<AttrV>::empty()
    }
}

/// One peer fragment as a nested child of the peer container.
pub open spec fn spec_peer_frag_attr(p: PeerV, j0: int, j1: int, cont: bool) -> AttrV {
    AttrV { tag: 0, nested: true, payload: spec_enc_attrs(spec_peer_frag_attrs(p, j0, j1, cont)) }
}

/// What a peer fragment stands for once parsed back: the first fragment
/// is the peer with the address slice; a continuation is only the key and
/// the slice.
pub open spec fn spec_frag_peer(p: PeerV, j0: int, j1: int, cont: bool) -> PeerV {
    if cont {
        PeerV {
            public_key: p.public_key,
            preshared_key: None,
            endpoint: None,
            persistent_keepalive_interval: None,
            allowed_ips: p.allowed_ips.subrange(j0, j1),
            flags: PeerFlags { remove_me: false, replace_allowed_ips: false, update_only: false },
        }
    } else {
        PeerV { allowed_ips: p.allowed_ips.subrange(j0, j1), ..p }
    }
}

/// The interface-identity attribute.
pub open spec fn spec_iface_attr(i: DeviceInterfaceV) -> AttrV {
    match i {
        DeviceInterfaceV::Index(x) => AttrV {
            tag: WGDEVICE_A_IFINDEX,
            nested: false,
            payload: spec_u32_le(x),
        },
        DeviceInterfaceV::Name(n) => AttrV {
            tag: WGDEVICE_A_IFNAME,
            nested: false,
            payload: n + seq![0u8],
        },
    }
}

/// The device-level scalar attributes, emitted only on the first message.
pub open spec fn spec_dev_scalar_attrs(d: DeviceV) -> Seq<AttrV> {
    seq![spec_iface_attr(d.interface)] + (match d.private_key {
        Some(k) => seq![AttrV { tag: WGDEVICE_A_PRIVATE_KEY, nested: false, payload: k }],
        None => Seq::<AttrV>::empty(),
    }) + (match d.public_key {
        Some(k) => seq![AttrV { tag: WGDEVICE_A_PUBLIC_KEY, nested: false, payload: k }],
        None => Seq::<AttrV>::empty(),
    }) + (match d.listen_port {
        Some(v) => seq![AttrV { tag: WGDEVICE_A_LISTEN_PORT, nested: false, payload: spec_u16_le(v) }],
        None => Seq::<AttrV>::empty(),
    }) + (match d.fwmark {
        Some(v) => seq![AttrV { tag: WGDEVICE_A_FWMARK, nested: false, payload: spec_u32_le(v) }],
        None => Seq::<AttrV>::empty(),
    }) + (if d.replace_peers {
        seq![AttrV { tag: WGDEVICE_A_FLAGS, nested: false, payload: spec_u32_le(1) }]
    } else {
        Seq::<AttrV>::empty()
    })
}

/// The attribute list of one whole message: its header attributes and,
/// when any peer data travels in it, one peer container.
pub open spec fn spec_msg_attrs(hdr: Seq<AttrV>, children: Seq<AttrV>) -> Seq<AttrV> {
    hdr + if children.len() > 0 {
        seq![AttrV { tag: WGDEVICE_A_PEERS, nested: true, payload: spec_enc_attrs(children) }]
    } else {
        Seq::<AttrV>::empty()
    }
}

// ---------------------------------------------------------------------
// Each constructed fragment parses back to what it stands for
// ---------------------------------------------------------------------
pub proof fn lemma_ip_fold_app(acc: Result<IpAcc, DecodeError>, s1: Seq<AttrV>, s2: Seq<AttrV>)
    ensures
        spec_ip_fold(acc, s1 + s2) == spec_ip_fold(spec_ip_fold(acc, s1), s2),
    decreases s1.len(),
{
    if s1.len() == 0 {
        assert(s1 + s2 =~= s2);
    } else {
        assert((s1 + s2)[0] == s1[0]);
        assert((s1 + s2).drop_first() =~= s1.drop_first() + s2);
        match acc {
            Ok(a) => {
                lemma_ip_fold_app(spec_ip_step(a, s1[0]), s1.drop_first(), s2);
            },
            Err(e) => {
                crate::get::lemma_ip_fold_err(e, s1 + s2);
                crate::get::lemma_ip_fold_err(e, s1);
                crate::get::lemma_ip_fold_err(e, s2);
            },
        }
    }
}

pub proof fn lemma_peer_fold_app(acc: Result<PeerAcc, DecodeError>, s1: Seq<AttrV>, s2: Seq<AttrV>)
    ensures
        spec_peer_fold(acc, s1 + s2) == spec_peer_fold(spec_peer_fold(acc, s1), s2),
    decreases s1.len(),
{
    if s1.len() == 0 {
        assert(s1 + s2 =~= s2);
    } else {
        assert((s1 + s2)[0] == s1[0]);
        assert((s1 + s2).drop_first() =~= s1.drop_first() + s2);
        match acc {
            Ok(a) => {
                lemma_peer_fold_app(spec_peer_step(a, s1[0]), s1.drop_first(), s2);
            },
            Err(e) => {
                crate::get::lemma_peer_fold_err(e, s1 + s2);
                crate::get::lemma_peer_fold_err(e, s1);
                crate::get::lemma_peer_fold_err(e, s2);
            },
        }
    }
}

pub proof fn lemma_dev_fold_app(acc: Result<DevAcc, DecodeError>, s1: Seq<AttrV>, s2: Seq<AttrV>)
    ensures
        spec_dev_fold(acc, s1 + s2) == spec_dev_fold(spec_dev_fold(acc, s1), s2),
    decreases s1.len(),
{
    if s1.len() == 0 {
        assert(s1 + s2 =~= s2);
    } else {
        assert((s1 + s2)[0] == s1[0]);
        assert((s1 + s2).drop_first() =~= s1.drop_first() + s2);
        match acc {
            Ok(a) => {
                lemma_dev_fold_app(spec_dev_step(a, s1[0]), s1.drop_first(), s2);
            },
            Err(e) => {
                crate::get::lemma_dev_fold_err(e, s1 + s2);
                crate::get::lemma_dev_fold_err(e, s1);
                crate::get::lemma_dev_fold_err(e, s2);
            },
        }
    }
}


pub proof fn lemma_ip_fold_one(a: IpAcc, x: AttrV)
    ensures
        spec_ip_fold(Ok(a), seq![x]) == spec_ip_step(a, x),
{
    assert(seq![x][0] == x);
    assert(seq![x].drop_first() =~= Seq::<AttrV>::empty());
    assert(spec_ip_fold(spec_ip_step(a, x), Seq::<AttrV>::empty()) == spec_ip_step(a, x));
}

pub proof fn lemma_peer_fold_one(a: PeerAcc, x: AttrV)
    ensures
        spec_peer_fold(Ok(a), seq![x]) == spec_peer_step(a, x),
{
    assert(seq![x][0] == x);
    assert(seq![x].drop_first() =~= Seq::<AttrV>::empty());
    assert(spec_peer_fold(spec_peer_step(a, x), Seq::<AttrV>::empty()) == spec_peer_step(a, x));
}

pub proof fn lemma_dev_fold_one(a: DevAcc, x: AttrV)
    ensures
        spec_dev_fold(Ok(a), seq![x]) == spec_dev_step(a, x),
{
    assert(seq![x][0] == x);
    assert(seq![x].drop_first() =~= Seq::<AttrV>::empty());
    assert(spec_dev_fold(spec_dev_step(a, x), Seq::<AttrV>::empty()) == spec_dev_step(a, x));
}

/// The byte length of one encoded record is its padded length.
pub proof fn lemma_enc_attr_is_len(a: AttrV)
    ensures
        spec_enc_attr(a).len() == spec_enc_attr_len(a),
{
}

/// The entry attributes of a well-formed allowed-ip entry are themselves
/// well formed, and their encoding has the entry's fixed size.
pub proof fn lemma_ip_entry_attrs_wf(ip: AllowedIpV)
    requires
        allowed_ip_wf(ip),
    ensures
        attrs_wf(spec_ip_entry_attrs(ip)),
        attr_wf(spec_ip_attr(ip)),
        spec_enc_attr_len(spec_ip_attr(ip)) == spec_ip_attr_len(ip),
{
    let s = spec_ip_entry_attrs(ip);
    assert(attr_wf(s[0]));
    assert(attr_wf(s[1]));
    assert(attr_wf(s[2]));
    assert forall|i: int| 0 <= i < s.len() implies attr_wf(#[trigger] s[i]) by {
        assert(i == 0 || i == 1 || i == 2);
    }
    assert(s.drop_first() =~= seq![s[1], s[2]]);
    assert(seq![s[1], s[2]].drop_first() =~= seq![s[2]]);
    assert(seq![s[2]].drop_first() =~= Seq::<AttrV>::empty());
    assert(spec_enc_attr(s[0]).len() == 8);
    assert(spec_enc_attr(s[2]).len() == 8);
    match ip.addr {
        IpAddrV::V4(_) => {
            assert(spec_enc_attr(s[1]).len() == 8);
        },
        IpAddrV::V6(_) => {
            assert(spec_enc_attr(s[1]).len() == 20);
        },
    }
    assert(spec_enc_attrs(Seq::<AttrV>::empty()) == Seq::<u8>::empty());
    assert(spec_enc_attrs(seq![s[2]]) == spec_enc_attr(s[2]) + spec_enc_attrs(
        Seq::<AttrV>::empty(),
    ));
    assert(spec_enc_attrs(seq![s[1], s[2]]) == spec_enc_attr(s[1]) + spec_enc_attrs(seq![s[2]]));
    assert(spec_enc_attrs(s) == spec_enc_attr(s[0]) + spec_enc_attrs(seq![s[1], s[2]]));
    assert(spec_enc_attrs(s).len() == spec_enc_attr(s[0]).len() + spec_enc_attr(s[1]).len()
        + spec_enc_attr(s[2]).len());
}

/// An allowed-ip entry, encoded as a container child, parses back to
/// itself.
#[verifier::rlimit(50)]
pub proof fn lemma_parse_ip_roundtrip(ip: AllowedIpV)
    requires
        allowed_ip_wf(ip),
    ensures
        spec_parse_ip_child(spec_ip_attr(ip)) == Ok::<AllowedIpV, DecodeError>(ip),
{
    let s = spec_ip_entry_attrs(ip);
    lemma_ip_entry_attrs_wf(ip);
    lemma_dec_enc(s);
    let a0 = ip_acc_empty();
    lemma_u16_le_round_trip(spec_family_of(ip.addr));
    let a1 = IpAcc { family: Some(spec_family_of(ip.addr)), ..a0 };
    assert(spec_ip_step(a0, s[0]) == Ok::<IpAcc, DecodeError>(a1));
    let a2 = IpAcc { addr: Some(spec_ip_bytes(ip.addr)), ..a1 };
    assert(spec_ip_step(a1, s[1]) == Ok::<IpAcc, DecodeError>(a2));
    let a3 = IpAcc { cidr: Some(ip.cidr), ..a2 };
    assert(spec_ip_step(a2, s[2]) == Ok::<IpAcc, DecodeError>(a3));
    assert(s.drop_first() =~= seq![s[1], s[2]]);
    assert(seq![s[1], s[2]].drop_first() =~= seq![s[2]]);
    lemma_ip_fold_one(a2, s[2]);
    assert(spec_ip_fold(Ok(a1), seq![s[1], s[2]]) == spec_ip_fold(Ok(a2), seq![s[2]]));
    assert(spec_ip_fold(Ok(a0), s) == spec_ip_fold(Ok(a1), seq![s[1], s[2]]));
    assert(spec_ip_fold(Ok(a0), s) == Ok::<IpAcc, DecodeError>(a3));
    match ip.addr {
        IpAddrV::V4(b) => {
            assert(spec_parse_ip(s) == Ok::<AllowedIpV, DecodeError>(
                AllowedIpV { addr: IpAddrV::V4(b), cidr: ip.cidr },
            ));
        },
        IpAddrV::V6(b) => {
            assert(spec_parse_ip(s) == Ok::<AllowedIpV, DecodeError>(
                AllowedIpV { addr: IpAddrV::V6(b), cidr: ip.cidr },
            ));
        },
    }
}

/// A list of well-formed entries gives a well-formed child list.
pub proof fn lemma_ip_attrs_wf(ips: Seq<AllowedIpV>)
    requires
        forall|i: int| 0 <= i < ips.len() ==> allowed_ip_wf(#[trigger] ips[i]),
    ensures
        attrs_wf(spec_ip_attrs(ips)),
{
    assert forall|i: int| 0 <= i < spec_ip_attrs(ips).len() implies attr_wf(
        #[trigger] spec_ip_attrs(ips)[i],
    ) by {
        lemma_ip_entry_attrs_wf(ips[i]);
    }
}

/// A whole allowed-ip list, encoded child by child, parses back to
/// itself in order.
pub proof fn lemma_ip_list_roundtrip(ips: Seq<AllowedIpV>)
    requires
        forall|i: int| 0 <= i < ips.len() ==> allowed_ip_wf(#[trigger] ips[i]),
    ensures
        spec_ip_list(spec_ip_attrs(ips)) == Ok::<Seq<AllowedIpV>, DecodeError>(ips),
    decreases ips.len(),
{
    let cs = spec_ip_attrs(ips);
    if ips.len() == 0 {
        assert(cs =~= Seq::<AttrV>::empty());
        assert(ips =~= Seq::<AllowedIpV>::empty());
    } else {
        assert(cs[0] == spec_ip_attr(ips[0]));
        lemma_parse_ip_roundtrip(ips[0]);
        assert(cs.drop_first() =~= spec_ip_attrs(ips.drop_first()));
        lemma_ip_list_roundtrip(ips.drop_first());
        assert(spec_ip_list(cs) == Ok::<Seq<AllowedIpV>, DecodeError>(
            seq![ips[0]] + ips.drop_first(),
        ));
        assert(seq![ips[0]] + ips.drop_first() =~= ips);
    }
}

/// A serialized socket address parses back to itself.
pub proof fn lemma_endpoint_roundtrip(e: EndpointV)
    requires
        endpoint_wf(e),
    ensures
        spec_parse_endpoint(spec_endpoint_bytes(e)) == Ok::<EndpointV, DecodeError>(e),
{
    let p = spec_endpoint_bytes(e);
    lemma_u16_be_round_trip(e.port);
    match e.addr {
        IpAddrV::V4(b) => {
            lemma_u16_le_round_trip(2);
            assert(p.len() == 16);
            assert(p[0] == spec_u16_le(2)[0] && p[1] == spec_u16_le(2)[1]);
            assert(p[2] == spec_u16_be(e.port)[0] && p[3] == spec_u16_be(e.port)[1]);
            assert(p.subrange(4, 8) =~= b);
        },
        IpAddrV::V6(b) => {
            lemma_u16_le_round_trip(10);
            assert(p.len() == 28);
            assert(p[0] == spec_u16_le(10)[0] && p[1] == spec_u16_le(10)[1]);
            assert(p[2] == spec_u16_be(e.port)[0] && p[3] == spec_u16_be(e.port)[1]);
            assert(p.subrange(8, 24) =~= b);
        },
    }
}

/// The flag bits read back as the flags they were built from.
pub proof fn lemma_peer_flags_roundtrip(f: PeerFlags)
    ensures
        crate::get::spec_peer_flags_of(spec_peer_flags_bits(f)) == f,
        spec_peer_flags_bits(f) == 0 <==> f == (PeerFlags {
            remove_me: false,
            replace_allowed_ips: false,
            update_only: false,
        }),
{
}

/// The fixed attributes of a well-formed peer are well formed.
pub proof fn lemma_peer_fixed_wf(p: PeerV, cont: bool)
    requires
        peer_wf(p),
    ensures
        attrs_wf(spec_peer_fixed_attrs(p, cont)),
{
    let s = spec_peer_fixed_attrs(p, cont);
    assert forall|i: int| 0 <= i < s.len() implies attr_wf(#[trigger] s[i]) by {
        match p.endpoint {
            Some(e) => {
                assert(spec_endpoint_bytes(e).len() <= 28);
            },
            None => {},
        }
        assert(s[0].tag == WGPEER_A_PUBLIC_KEY);
    }
}

/// Folding the fixed attributes of a peer fragment gives the fragment's
/// fields: everything on a first fragment, only the key on a
/// continuation.
#[verifier::rlimit(80)]
pub proof fn lemma_peer_fixed_fold(p: PeerV, cont: bool)
    requires
        peer_wf(p),
    ensures
        spec_peer_fold(Ok(peer_acc_empty()), spec_peer_fixed_attrs(p, cont)) == Ok::<
            PeerAcc,
            DecodeError,
        >(
            PeerAcc {
                public_key: Some(p.public_key),
                preshared_key: if cont {
                    None
                } else {
                    p.preshared_key
                },
                endpoint: if cont {
                    None
                } else {
                    p.endpoint
                },
                persistent_keepalive_interval: if cont {
                    None
                } else {
                    p.persistent_keepalive_interval
                },
                allowed_ips: Seq::empty(),
                flags: if cont {
                    PeerFlags { remove_me: false, replace_allowed_ips: false, update_only: false }
                } else {
                    p.flags
                },
            },
        ),
{
    let e0 = peer_acc_empty();
    let key = AttrV { tag: WGPEER_A_PUBLIC_KEY, nested: false, payload: p.public_key };
    let a1 = PeerAcc { public_key: Some(p.public_key), ..e0 };
    lemma_peer_fold_one(e0, key);
    assert(spec_peer_step(e0, key) == Ok::<PeerAcc, DecodeError>(a1));
    if cont {
        assert(spec_peer_fixed_attrs(p, true) =~= seq![key]);
    } else {
        let s1 = match p.preshared_key {
            Some(k) => seq![AttrV { tag: WGPEER_A_PRESHARED_KEY, nested: false, payload: k }],
            None => Seq::<AttrV>::empty(),
        };
        let s2 = match p.endpoint {
            Some(e) => seq![
                AttrV { tag: WGPEER_A_ENDPOINT, nested: false, payload: spec_endpoint_bytes(e) },
            ],
            None => Seq::<AttrV>::empty(),
        };
        let s3 = match p.persistent_keepalive_interval {
            Some(v) => seq![
                AttrV {
                    tag: WGPEER_A_PERSISTENT_KEEPALIVE_INTERVAL,
                    nested: false,
                    payload: spec_u16_le(v),
                },
            ],
            None => Seq::<AttrV>::empty(),
        };
        let s4 = if spec_peer_flags_bits(p.flags) != 0 {
            seq![
                AttrV {
                    tag: WGPEER_A_FLAGS,
                    nested: false,
                    payload: spec_u32_le(spec_peer_flags_bits(p.flags)),
                },
            ]
        } else {
            Seq::<AttrV>::empty()
        };
        assert(spec_peer_fixed_attrs(p, false) == seq![key] + (s1 + s2 + s3 + s4));
        let a2 = PeerAcc { preshared_key: p.preshared_key, ..a1 };
        match p.preshared_key {
            Some(k) => {
                lemma_peer_fold_one(a1, s1[0]);
                assert(s1 =~= seq![s1[0]]);
                assert(spec_peer_step(a1, s1[0]) == Ok::<PeerAcc, DecodeError>(a2));
            },
            None => {
                assert(a2 =~= a1);
                assert(spec_peer_fold(Ok(a1), s1) == Ok::<PeerAcc, DecodeError>(a2));
            },
        }
        let a3 = PeerAcc { endpoint: p.endpoint, ..a2 };
        match p.endpoint {
            Some(e) => {
                lemma_endpoint_roundtrip(e);
                lemma_peer_fold_one(a2, s2[0]);
                assert(s2 =~= seq![s2[0]]);
                assert(spec_peer_step(a2, s2[0]) == Ok::<PeerAcc, DecodeError>(a3));
            },
            None => {
                assert(a3 =~= a2);
                assert(spec_peer_fold(Ok(a2), s2) == Ok::<PeerAcc, DecodeError>(a3));
            },
        }
        let a4 = PeerAcc { persistent_keepalive_interval: p.persistent_keepalive_interval, ..a3 };
        match p.persistent_keepalive_interval {
            Some(v) => {
                lemma_u16_le_round_trip(v);
                lemma_peer_fold_one(a3, s3[0]);
                assert(s3 =~= seq![s3[0]]);
                assert(spec_peer_step(a3, s3[0]) == Ok::<PeerAcc, DecodeError>(a4));
            },
            None => {
                assert(a4 =~= a3);
                assert(spec_peer_fold(Ok(a3), s3) == Ok::<PeerAcc, DecodeError>(a4));
            },
        }
        let a5 = PeerAcc { flags: p.flags, ..a4 };
        lemma_peer_flags_roundtrip(p.flags);
        if spec_peer_flags_bits(p.flags) != 0 {
            lemma_u32_le_round_trip(spec_peer_flags_bits(p.flags));
            lemma_peer_fold_one(a4, s4[0]);
            assert(s4 =~= seq![s4[0]]);
            assert(spec_peer_step(a4, s4[0]) == Ok::<PeerAcc, DecodeError>(a5));
        } else {
            assert(a5 =~= a4);
            assert(spec_peer_fold(Ok(a4), s4) == Ok::<PeerAcc, DecodeError>(a5));
        }
        lemma_peer_fold_app(Ok(e0), seq![key], s1 + s2 + s3 + s4);
        lemma_peer_fold_app(Ok(a1), s1, s2 + s3 + s4);
        lemma_peer_fold_app(Ok(a2), s2, s3 + s4);
        lemma_peer_fold_app(Ok(a3), s3, s4);
        assert(s1 + s2 + s3 + s4 =~= s1 + (s2 + (s3 + s4)));
        assert(s2 + s3 + s4 =~= s2 + (s3 + s4));
        assert(spec_peer_fold(Ok(e0), spec_peer_fixed_attrs(p, false)) == Ok::<
            PeerAcc,
            DecodeError,
        >(a5));
    }
}

/// A peer fragment, encoded as a container child, parses back to the
/// fragment peer it stands for.
#[verifier::rlimit(100)]
pub proof fn lemma_parse_peer_frag(p: PeerV, j0: int, j1: int, cont: bool)
    requires
        peer_wf(p),
        0 <= j0 <= j1 <= p.allowed_ips.len(),
        spec_enc_attrs(spec_ip_attrs(p.allowed_ips.subrange(j0, j1))).len() <= 0xFFFB,
    ensures
        spec_parse_peer_child(spec_peer_frag_attr(p, j0, j1, cont)) == Ok::<PeerV, DecodeError>(
            spec_frag_peer(p, j0, j1, cont),
        ),
{
    let fixed = spec_peer_fixed_attrs(p, cont);
    let s = spec_peer_frag_attrs(p, j0, j1, cont);
    let ips = p.allowed_ips.subrange(j0, j1);
    assert(forall|i: int| 0 <= i < ips.len() ==> allowed_ip_wf(#[trigger] ips[i])) by {
        assert forall|i: int| 0 <= i < ips.len() implies allowed_ip_wf(#[trigger] ips[i]) by {
            assert(ips[i] == p.allowed_ips[j0 + i]);
        }
    }
    lemma_peer_fixed_wf(p, cont);
    lemma_peer_fixed_fold(p, cont);
    let accf = PeerAcc {
        public_key: Some(p.public_key),
        preshared_key: if cont {
            None
        } else {
            p.preshared_key
        },
        endpoint: if cont {
            None
        } else {
            p.endpoint
        },
        persistent_keepalive_interval: if cont {
            None
        } else {
            p.persistent_keepalive_interval
        },
        allowed_ips: Seq::empty(),
        flags: if cont {
            PeerFlags { remove_me: false, replace_allowed_ips: false, update_only: false }
        } else {
            p.flags
        },
    };
    if j0 < j1 {
        let aips = spec_aips_attr(ips);
        assert(attr_wf(aips));
        lemma_attrs_wf_concat(fixed, seq![aips]);
        assert(s == fixed + seq![aips]);
        lemma_dec_enc(s);
        lemma_ip_attrs_wf(ips);
        lemma_dec_enc(spec_ip_attrs(ips));
        lemma_ip_list_roundtrip(ips);
        let acc2 = PeerAcc { allowed_ips: Seq::<AllowedIpV>::empty() + ips, ..accf };
        assert(spec_peer_step(accf, aips) == Ok::<PeerAcc, DecodeError>(acc2));
        lemma_peer_fold_one(accf, aips);
        lemma_peer_fold_app(Ok(peer_acc_empty()), fixed, seq![aips]);
        assert(Seq::<AllowedIpV>::empty() + ips =~= ips);
        assert(spec_parse_peer(s) == Ok::<PeerV, DecodeError>(spec_frag_peer(p, j0, j1, cont)));
    } else {
        assert(s =~= fixed);
        lemma_dec_enc(s);
        assert(ips =~= Seq::<AllowedIpV>::empty());
        assert(spec_parse_peer(s) == Ok::<PeerV, DecodeError>(spec_frag_peer(p, j0, j1, cont)));
    }
}

/// Appending one parsed child to a parsed child list.
pub proof fn lemma_peer_list_push(children: Seq<AttrV>, c: AttrV, ps: Seq<PeerV>, q: PeerV)
    requires
        spec_peer_list(children) == Ok::<Seq<PeerV>, DecodeError>(ps),
        spec_parse_peer_child(c) == Ok::<PeerV, DecodeError>(q),
    ensures
        spec_peer_list(children.push(c)) == Ok::<Seq<PeerV>, DecodeError>(ps.push(q)),
    decreases children.len(),
{
    if children.len() == 0 {
        assert(children.push(c)[0] == c);
        assert(children.push(c).drop_first() =~= Seq::<AttrV>::empty());
        assert(spec_peer_list(Seq::<AttrV>::empty()) == Ok::<Seq<PeerV>, DecodeError>(
            Seq::<PeerV>::empty(),
        ));
        assert(spec_peer_list(children.push(c)) == Ok::<Seq<PeerV>, DecodeError>(
            seq![q] + Seq::<PeerV>::empty(),
        ));
        assert(ps =~= Seq::<PeerV>::empty());
        assert(seq![q] + Seq::<PeerV>::empty() =~= ps.push(q));
    } else {
        assert(spec_peer_list(children) == match spec_parse_peer_child(children[0]) {
            Ok(p) => match spec_peer_list(children.drop_first()) {
                Ok(rest) => Ok::<Seq<PeerV>, DecodeError>(seq![p] + rest),
                Err(e) => Err(e),
            },
            Err(e) => Err(e),
        });
        assert(spec_parse_peer_child(children[0]) is Ok);
        assert(spec_peer_list(children.drop_first()) is Ok);
        let p0 = spec_parse_peer_child(children[0]).unwrap();
        let rest0 = spec_peer_list(children.drop_first()).unwrap();
        assert(ps == seq![p0] + rest0);
        assert(rest0 =~= ps.drop_first());
        assert(ps[0] == p0);
        lemma_peer_list_push(children.drop_first(), c, rest0, q);
        assert(children.push(c)[0] == children[0]);
        assert(children.push(c).drop_first() =~= children.drop_first().push(c));
        assert(spec_peer_list(children.push(c)) == Ok::<Seq<PeerV>, DecodeError>(
            seq![p0] + rest0.push(q),
        ));
        assert(seq![p0] + rest0.push(q) =~= ps.push(q));
    }
}

/// What a message's header attributes fold to: the device's scalar
/// fields, and no peers.
pub open spec fn spec_scalar_acc(d: DeviceV) -> DevAcc {
    DevAcc {
        ifindex: match d.interface {
            DeviceInterfaceV::Index(x) => Some(x),
            DeviceInterfaceV::Name(_) => None,
        },
        ifname: match d.interface {
            DeviceInterfaceV::Name(n) => Some(n),
            DeviceInterfaceV::Index(_) => None,
        },
        private_key: d.private_key,
        public_key: d.public_key,
        listen_port: d.listen_port,
        fwmark: d.fwmark,
        peers: Seq::empty(),
        replace_peers: d.replace_peers,
    }
}

/// The scalar attributes of a well-formed device are well formed.
pub proof fn lemma_dev_scalars_wf(d: DeviceV)
    requires
        device_wf(d),
    ensures
        attrs_wf(spec_dev_scalar_attrs(d)),
{
    let s = spec_dev_scalar_attrs(d);
    assert forall|i: int| 0 <= i < s.len() implies attr_wf(#[trigger] s[i]) by {
        match d.interface {
            DeviceInterfaceV::Name(n) => {
                assert((n + seq![0u8]).len() < 17);
            },
            DeviceInterfaceV::Index(_) => {},
        }
        assert(s[0] == spec_iface_attr(d.interface));
    }
}

/// Folding a device's scalar attributes gives exactly its scalar fields.
#[verifier::rlimit(100)]
#[verifier::spinoff_prover]
pub proof fn lemma_dev_scalars_fold(d: DeviceV)
    requires
        device_wf(d),
    ensures
        spec_dev_fold(Ok(dev_acc_empty()), spec_dev_scalar_attrs(d)) == Ok::<DevAcc, DecodeError>(
            spec_scalar_acc(d),
        ),
{
    let e0 = dev_acc_empty();
    let ifa = spec_iface_attr(d.interface);
    let a1 = DevAcc {
        ifindex: spec_scalar_acc(d).ifindex,
        ifname: spec_scalar_acc(d).ifname,
        ..e0
    };
    match d.interface {
        DeviceInterfaceV::Index(x) => {
            lemma_u32_le_round_trip(x);
            assert(spec_dev_step(e0, ifa) == Ok::<DevAcc, DecodeError>(a1));
        },
        DeviceInterfaceV::Name(n) => {
            let pn = n + seq![0u8];
            assert(pn.len() > 0 && pn[pn.len() - 1] == 0);
            assert(spec_strip_nul(pn) =~= n);
            assert(vstd::utf8::valid_utf8(n));
            assert(spec_dev_step(e0, ifa) == Ok::<DevAcc, DecodeError>(a1));
        },
    }
    lemma_dev_fold_one(e0, ifa);
    let s1 = match d.private_key {
        Some(k) => seq![AttrV { tag: WGDEVICE_A_PRIVATE_KEY, nested: false, payload: k }],
        None => Seq::<AttrV>::empty(),
    };
    let s2 = match d.public_key {
        Some(k) => seq![AttrV { tag: WGDEVICE_A_PUBLIC_KEY, nested: false, payload: k }],
        None => Seq::<AttrV>::empty(),
    };
    let s3 = match d.listen_port {
        Some(v) => seq![
            AttrV { tag: WGDEVICE_A_LISTEN_PORT, nested: false, payload: spec_u16_le(v) },
        ],
        None => Seq::<AttrV>::empty(),
    };
    let s4 = match d.fwmark {
        Some(v) => seq![AttrV { tag: WGDEVICE_A_FWMARK, nested: false, payload: spec_u32_le(v) }],
        None => Seq::<AttrV>::empty(),
    };
    let s5 = if d.replace_peers {
        seq![AttrV { tag: WGDEVICE_A_FLAGS, nested: false, payload: spec_u32_le(1) }]
    } else {
        Seq::<AttrV>::empty()
    };
    assert(spec_dev_scalar_attrs(d) == seq![ifa] + (s1 + s2 + s3 + s4 + s5));
    let a2 = DevAcc { private_key: d.private_key, ..a1 };
    match d.private_key {
        Some(k) => {
            lemma_dev_fold_one(a1, s1[0]);
            assert(s1 =~= seq![s1[0]]);
            assert(spec_dev_step(a1, s1[0]) == Ok::<DevAcc, DecodeError>(a2));
        },
        None => {
            assert(a2 =~= a1);
            assert(spec_dev_fold(Ok(a1), s1) == Ok::<DevAcc, DecodeError>(a2));
        },
    }
    let a3 = DevAcc { public_key: d.public_key, ..a2 };
    match d.public_key {
        Some(k) => {
            lemma_dev_fold_one(a2, s2[0]);
            assert(s2 =~= seq![s2[0]]);
            assert(spec_dev_step(a2, s2[0]) == Ok::<DevAcc, DecodeError>(a3));
        },
        None => {
            assert(a3 =~= a2);
            assert(spec_dev_fold(Ok(a2), s2) == Ok::<DevAcc, DecodeError>(a3));
        },
    }
    let a4 = DevAcc { listen_port: d.listen_port, ..a3 };
    match d.listen_port {
        Some(v) => {
            lemma_u16_le_round_trip(v);
            lemma_dev_fold_one(a3, s3[0]);
            assert(s3 =~= seq![s3[0]]);
            assert(spec_dev_step(a3, s3[0]) == Ok::<DevAcc, DecodeError>(a4));
        },
        None => {
            assert(a4 =~= a3);
            assert(spec_dev_fold(Ok(a3), s3) == Ok::<DevAcc, DecodeError>(a4));
        },
    }
    let a5 = DevAcc { fwmark: d.fwmark, ..a4 };
    match d.fwmark {
        Some(v) => {
            lemma_u32_le_round_trip(v);
            lemma_dev_fold_one(a4, s4[0]);
            assert(s4 =~= seq![s4[0]]);
            assert(spec_dev_step(a4, s4[0]) == Ok::<DevAcc, DecodeError>(a5));
        },
        None => {
            assert(a5 =~= a4);
            assert(spec_dev_fold(Ok(a4), s4) == Ok::<DevAcc, DecodeError>(a5));
        },
    }
    let a6 = DevAcc { replace_peers: d.replace_peers, ..a5 };
    if d.replace_peers {
        lemma_u32_le_round_trip(1);
        lemma_dev_fold_one(a5, s5[0]);
        assert(s5 =~= seq![s5[0]]);
        assert(spec_dev_step(a5, s5[0]) == Ok::<DevAcc, DecodeError>(a6));
    } else {
        assert(a6 =~= a5);
        assert(spec_dev_fold(Ok(a5), s5) == Ok::<DevAcc, DecodeError>(a6));
    }
    lemma_dev_fold_app(Ok(e0), seq![ifa], s1 + s2 + s3 + s4 + s5);
    lemma_dev_fold_app(Ok(a1), s1, s2 + s3 + s4 + s5);
    lemma_dev_fold_app(Ok(a2), s2, s3 + s4 + s5);
    lemma_dev_fold_app(Ok(a3), s3, s4 + s5);
    lemma_dev_fold_app(Ok(a4), s4, s5);
    assert(s1 + s2 + s3 + s4 + s5 =~= s1 + (s2 + (s3 + (s4 + s5))));
    assert(s2 + s3 + s4 + s5 =~= s2 + (s3 + (s4 + s5)));
    assert(s3 + s4 + s5 =~= s3 + (s4 + s5));
    assert(a6 =~= spec_scalar_acc(d));
}

/// Merging one whole message whose header folds to `acc_h` and whose
/// peer container parses to `ps`.
#[verifier::rlimit(100)]
pub proof fn lemma_merge_msg(
    prev: Option<DeviceV>,
    hdr: Seq<AttrV>,
    acc_h: DevAcc,
    children: Seq<AttrV>,
    ps: Seq<PeerV>,
    base: DeviceV,
)
    requires
        spec_dev_fold(Ok(dev_acc_empty()), hdr) == Ok::<DevAcc, DecodeError>(acc_h),
        acc_h.peers == Seq::<PeerV>::empty(),
        attrs_wf(children),
        spec_peer_list(children) == Ok::<Seq<PeerV>, DecodeError>(ps),
        prev is None ==> spec_dev_finish(acc_h) == Ok::<DeviceV, DecodeError>(base),
    ensures
        spec_merge(prev, spec_msg_attrs(hdr, children)) == Ok::<DeviceV, DecodeError>(
            match prev {
                None => DeviceV { peers: ps, ..base },
                Some(d) => DeviceV { peers: crate::get::spec_coalesce(d.peers, ps), ..d },
            },
        ),
{
    let msg = spec_msg_attrs(hdr, children);
    if children.len() == 0 {
        assert(msg =~= hdr);
        assert(ps =~= Seq::<PeerV>::empty());
        match prev {
            None => {
                assert(spec_merge(prev, msg) == spec_dev_finish(acc_h));
                assert(DeviceV { peers: ps, ..base } =~= base);
            },
            Some(d) => {
                assert(crate::get::spec_coalesce(d.peers, acc_h.peers) =~= d.peers);
                assert(crate::get::spec_coalesce(d.peers, ps) =~= d.peers);
                assert(spec_merge(prev, msg) == Ok::<DeviceV, DecodeError>(
                    DeviceV { peers: d.peers, ..d },
                ));
                assert(DeviceV { peers: d.peers, ..d } =~= DeviceV {
                    peers: crate::get::spec_coalesce(d.peers, ps),
                    ..d
                });
            },
        }
    } else {
        let pa = AttrV { tag: WGDEVICE_A_PEERS, nested: true, payload: spec_enc_attrs(children) };
        assert(msg == hdr + seq![pa]);
        lemma_dev_fold_app(Ok(dev_acc_empty()), hdr, seq![pa]);
        lemma_dec_enc(children);
        let acc2 = DevAcc { peers: acc_h.peers + ps, ..acc_h };
        assert(spec_dev_step(acc_h, pa) == Ok::<DevAcc, DecodeError>(acc2));
        lemma_dev_fold_one(acc_h, pa);
        assert(acc_h.peers + ps =~= ps);
        match prev {
            None => {
                assert(spec_merge(prev, msg) == spec_dev_finish(acc2));
                match acc_h.ifname {
                    Some(n) => {
                        assert(spec_dev_finish(acc2) == Ok::<DeviceV, DecodeError>(
                            DeviceV { peers: ps, ..base },
                        ));
                    },
                    None => {
                        match acc_h.ifindex {
                            Some(x) => {
                                assert(spec_dev_finish(acc2) == Ok::<DeviceV, DecodeError>(
                                    DeviceV { peers: ps, ..base },
                                ));
                            },
                            None => {
                                assert(false);
                            },
                        }
                    },
                }
            },
            Some(d) => {
                assert(spec_merge(prev, msg) == Ok::<DeviceV, DecodeError>(
                    DeviceV { peers: crate::get::spec_coalesce(d.peers, ps), ..d },
                ));
            },
        }
    }
}

/// Closing one more message extends the merged prefix.
pub proof fn lemma_merge_seq_push(acc0: Option<DeviceV>, msgs: Seq<Seq<AttrV>>, m: Seq<AttrV>)
    ensures
        crate::get::spec_merge_seq(acc0, msgs.push(m)) == match crate::get::spec_merge_seq(
            acc0,
            msgs,
        ) {
            Ok(acc) => match spec_merge(acc, m) {
                Ok(d) => Ok::<Option<DeviceV>, DecodeError>(Some(d)),
                Err(e) => Err(e),
            },
            Err(e) => Err(e),
        },
    decreases msgs.len(),
{
    if msgs.len() == 0 {
        assert(msgs.push(m)[0] == m);
        assert(msgs.push(m).drop_first() =~= Seq::<Seq<AttrV>>::empty());
        match spec_merge(acc0, m) {
            Ok(d) => {
                assert(crate::get::spec_merge_seq(Some(d), Seq::<Seq<AttrV>>::empty()) == Ok::<
                    Option<DeviceV>,
                    DecodeError,
                >(Some(d)));
                assert(crate::get::spec_merge_seq(acc0, msgs.push(m)) == Ok::<
                    Option<DeviceV>,
                    DecodeError,
                >(Some(d)));
            },
            Err(e) => {
                assert(crate::get::spec_merge_seq(acc0, msgs.push(m)) == Err::<
                    Option<DeviceV>,
                    DecodeError,
                >(e));
            },
        }
        assert(crate::get::spec_merge_seq(acc0, msgs) == Ok::<Option<DeviceV>, DecodeError>(
            acc0,
        ));
    } else {
        assert(msgs.push(m)[0] == msgs[0]);
        assert(msgs.push(m).drop_first() =~= msgs.drop_first().push(m));
        match spec_merge(acc0, msgs[0]) {
            Ok(d) => {
                lemma_merge_seq_push(Some(d), msgs.drop_first(), m);
            },
            Err(_) => {},
        }
    }
}

/// Appending one more peer to the new list of a coalescing step.
pub proof fn lemma_coalesce_push(old: Seq<PeerV>, new: Seq<PeerV>, q: PeerV)
    requires
        new.len() > 0,
    ensures
        crate::get::spec_coalesce(old, new.push(q)) == crate::get::spec_coalesce(old, new).push(
            q,
        ),
{
    assert(new.push(q)[0] == new[0]);
    if old.len() > 0 && new[0].public_key == old.last().public_key {
        assert(new.push(q).drop_first() =~= new.drop_first().push(q));
        let merged = PeerV {
            allowed_ips: old.last().allowed_ips + new[0].allowed_ips,
            ..old.last()
        };
        assert(old.update(old.len() - 1, merged) + new.drop_first().push(q) =~= (old.update(
            old.len() - 1,
            merged,
        ) + new.drop_first()).push(q));
    } else {
        assert(old + new.push(q) =~= (old + new).push(q));
    }
}

/// The first peer of a message that does not continue the last one seen
/// is simply appended.
pub proof fn lemma_coalesce_fresh(old: Seq<PeerV>, q: PeerV)
    requires
        old.len() == 0 || q.public_key != old.last().public_key,
    ensures
        crate::get::spec_coalesce(old, seq![q]) == old.push(q),
{
    assert(old + seq![q] =~= old.push(q));
}

/// The first peer of a message that continues the last one seen hands it
/// its addresses; nothing else of it is kept.
pub proof fn lemma_coalesce_cont(old: Seq<PeerV>, q: PeerV)
    requires
        old.len() > 0,
        q.public_key == old.last().public_key,
    ensures
        crate::get::spec_coalesce(old, seq![q]) == old.update(
            old.len() - 1,
            PeerV { allowed_ips: old.last().allowed_ips + q.allowed_ips, ..old.last() },
        ),
{
    let merged = PeerV { allowed_ips: old.last().allowed_ips + q.allowed_ips, ..old.last() };
    assert(seq![q][0] == q);
    assert(seq![q].drop_first() =~= Seq::<PeerV>::empty());
    assert(old.update(old.len() - 1, merged) + Seq::<PeerV>::empty() =~= old.update(
        old.len() - 1,
        merged,
    ));
}


/// The encoding of a concatenation is the concatenation of the encodings.
pub proof fn lemma_enc_attrs_app(s1: Seq<AttrV>, s2: Seq<AttrV>)
    ensures
        spec_enc_attrs(s1 + s2) == spec_enc_attrs(s1) + spec_enc_attrs(s2),
    decreases s1.len(),
{
    if s1.len() == 0 {
        assert(s1 + s2 =~= s2);
        assert(spec_enc_attrs(s1) + spec_enc_attrs(s2) =~= spec_enc_attrs(s2));
    } else {
        assert((s1 + s2)[0] == s1[0]);
        assert((s1 + s2).drop_first() =~= s1.drop_first() + s2);
        lemma_enc_attrs_app(s1.drop_first(), s2);
        assert(spec_enc_attr(s1[0]) + (spec_enc_attrs(s1.drop_first()) + spec_enc_attrs(s2)) =~= (
        spec_enc_attr(s1[0]) + spec_enc_attrs(s1.drop_first())) + spec_enc_attrs(s2));
    }
}

/// Every encoded record area has a length divisible by four.
pub proof fn lemma_enc_len_mod4(s: Seq<AttrV>)
    ensures
        spec_enc_attrs(s).len() % 4 == 0,
    decreases s.len(),
{
    if s.len() == 0 {
    } else {
        lemma_enc_len_mod4(s.drop_first());
        lemma_enc_attr_is_len(s[0]);
        let n = s[0].payload.len() + 4;
        assert(spec_enc_attr_len(s[0]) % 4 == 0) by (nonlinear_arith)
            requires
                spec_enc_attr_len(s[0]) == n + ((4 - n % 4) % 4) && n >= 0,
        ;
    }
}

/// The scalar attributes of a well-formed device fit in 116 bytes.
#[verifier::rlimit(100)]
pub proof fn lemma_scalars_enc_len(d: DeviceV)
    requires
        device_wf(d),
    ensures
        spec_enc_attrs(spec_dev_scalar_attrs(d)).len() <= 116,
{
    let ifa = spec_iface_attr(d.interface);
    let s1 = match d.private_key {
        Some(k) => seq![AttrV { tag: WGDEVICE_A_PRIVATE_KEY, nested: false, payload: k }],
        None => Seq::<AttrV>::empty(),
    };
    let s2 = match d.public_key {
        Some(k) => seq![AttrV { tag: WGDEVICE_A_PUBLIC_KEY, nested: false, payload: k }],
        None => Seq::<AttrV>::empty(),
    };
    let s3 = match d.listen_port {
        Some(v) => seq![
            AttrV { tag: WGDEVICE_A_LISTEN_PORT, nested: false, payload: spec_u16_le(v) },
        ],
        None => Seq::<AttrV>::empty(),
    };
    let s4 = match d.fwmark {
        Some(v) => seq![AttrV { tag: WGDEVICE_A_FWMARK, nested: false, payload: spec_u32_le(v) }],
        None => Seq::<AttrV>::empty(),
    };
    let s5 = if d.replace_peers {
        seq![AttrV { tag: WGDEVICE_A_FLAGS, nested: false, payload: spec_u32_le(1) }]
    } else {
        Seq::<AttrV>::empty()
    };
    lemma_enc_attrs_app(seq![ifa], s1 + s2 + s3 + s4 + s5);
    lemma_enc_attrs_app(s1, s2 + s3 + s4 + s5);
    lemma_enc_attrs_app(s2, s3 + s4 + s5);
    lemma_enc_attrs_app(s3, s4 + s5);
    lemma_enc_attrs_app(s4, s5);
    assert(spec_dev_scalar_attrs(d) == seq![ifa] + (s1 + s2 + s3 + s4 + s5));
    assert(s1 + s2 + s3 + s4 + s5 =~= s1 + (s2 + (s3 + (s4 + s5))));
    assert(s2 + s3 + s4 + s5 =~= s2 + (s3 + (s4 + s5)));
    assert(s3 + s4 + s5 =~= s3 + (s4 + s5));
    lemma_enc_attr_is_len(ifa);
    assert(seq![ifa].drop_first() =~= Seq::<AttrV>::empty());
    assert(spec_enc_attrs(seq![ifa]) == spec_enc_attr(ifa) + spec_enc_attrs(
        Seq::<AttrV>::empty(),
    ));
    assert(spec_enc_attrs(seq![ifa]).len() <= 20);
    assert(spec_enc_attrs(s1).len() <= 36) by {
        if d.private_key is Some {
            assert(s1.drop_first() =~= Seq::<AttrV>::empty());
            assert(spec_enc_attrs(s1) == spec_enc_attr(s1[0]) + spec_enc_attrs(
                Seq::<AttrV>::empty(),
            ));
            lemma_enc_attr_is_len(s1[0]);
        }
    }
    assert(spec_enc_attrs(s2).len() <= 36) by {
        if d.public_key is Some {
            assert(s2.drop_first() =~= Seq::<AttrV>::empty());
            assert(spec_enc_attrs(s2) == spec_enc_attr(s2[0]) + spec_enc_attrs(
                Seq::<AttrV>::empty(),
            ));
            lemma_enc_attr_is_len(s2[0]);
        }
    }
    assert(spec_enc_attrs(s3).len() <= 8) by {
        if d.listen_port is Some {
            assert(s3.drop_first() =~= Seq::<AttrV>::empty());
            assert(spec_enc_attrs(s3) == spec_enc_attr(s3[0]) + spec_enc_attrs(
                Seq::<AttrV>::empty(),
            ));
            lemma_enc_attr_is_len(s3[0]);
        }
    }
    assert(spec_enc_attrs(s4).len() <= 8) by {
        if d.fwmark is Some {
            assert(s4.drop_first() =~= Seq::<AttrV>::empty());
            assert(spec_enc_attrs(s4) == spec_enc_attr(s4[0]) + spec_enc_attrs(
                Seq::<AttrV>::empty(),
            ));
            lemma_enc_attr_is_len(s4[0]);
        }
    }
    assert(spec_enc_attrs(s5).len() <= 8) by {
        if d.replace_peers {
            assert(s5.drop_first() =~= Seq::<AttrV>::empty());
            assert(spec_enc_attrs(s5) == spec_enc_attr(s5[0]) + spec_enc_attrs(
                Seq::<AttrV>::empty(),
            ));
            lemma_enc_attr_is_len(s5[0]);
        }
    }
}

/// The fixed attributes of a peer fragment fit in 120 bytes; a
/// continuation's fixed part is exactly the 36-byte key record.
pub proof fn lemma_fixed_enc_len(p: PeerV, cont: bool)
    requires
        peer_wf(p),
    ensures
        spec_enc_attrs(spec_peer_fixed_attrs(p, cont)).len() <= 120,
        cont ==> spec_enc_attrs(spec_peer_fixed_attrs(p, cont)).len() == 36,
{
    let key = AttrV { tag: WGPEER_A_PUBLIC_KEY, nested: false, payload: p.public_key };
    lemma_enc_attr_is_len(key);
    assert(seq![key].drop_first() =~= Seq::<AttrV>::empty());
    assert(spec_enc_attrs(seq![key]) == spec_enc_attr(key) + spec_enc_attrs(
        Seq::<AttrV>::empty(),
    ));
    assert(spec_enc_attrs(seq![key]).len() == 36);
    if cont {
        assert(spec_peer_fixed_attrs(p, true) =~= seq![key]);
    } else {
        let s1 = match p.preshared_key {
            Some(k) => seq![AttrV { tag: WGPEER_A_PRESHARED_KEY, nested: false, payload: k }],
            None => Seq::<AttrV>::empty(),
        };
        let s2 = match p.endpoint {
            Some(e) => seq![
                AttrV { tag: WGPEER_A_ENDPOINT, nested: false, payload: spec_endpoint_bytes(e) },
            ],
            None => Seq::<AttrV>::empty(),
        };
        let s3 = match p.persistent_keepalive_interval {
            Some(v) => seq![
                AttrV {
                    tag: WGPEER_A_PERSISTENT_KEEPALIVE_INTERVAL,
                    nested: false,
                    payload: spec_u16_le(v),
                },
            ],
            None => Seq::<AttrV>::empty(),
        };
        let s4 = if spec_peer_flags_bits(p.flags) != 0 {
            seq![
                AttrV {
                    tag: WGPEER_A_FLAGS,
                    nested: false,
                    payload: spec_u32_le(spec_peer_flags_bits(p.flags)),
                },
            ]
        } else {
            Seq::<AttrV>::empty()
        };
        assert(spec_peer_fixed_attrs(p, false) == seq![key] + (s1 + s2 + s3 + s4));
        lemma_enc_attrs_app(seq![key], s1 + s2 + s3 + s4);
        lemma_enc_attrs_app(s1, s2 + s3 + s4);
        lemma_enc_attrs_app(s2, s3 + s4);
        lemma_enc_attrs_app(s3, s4);
        assert(s1 + s2 + s3 + s4 =~= s1 + (s2 + (s3 + s4)));
        assert(s2 + s3 + s4 =~= s2 + (s3 + s4));
        assert(spec_enc_attrs(s1).len() <= 36) by {
            if p.preshared_key is Some {
                assert(s1.drop_first() =~= Seq::<AttrV>::empty());
                assert(spec_enc_attrs(s1) == spec_enc_attr(s1[0]) + spec_enc_attrs(
                    Seq::<AttrV>::empty(),
                ));
                lemma_enc_attr_is_len(s1[0]);
            }
        }
        assert(spec_enc_attrs(s2).len() <= 32) by {
            if p.endpoint is Some {
                assert(s2.drop_first() =~= Seq::<AttrV>::empty());
                assert(spec_enc_attrs(s2) == spec_enc_attr(s2[0]) + spec_enc_attrs(
                    Seq::<AttrV>::empty(),
                ));
                lemma_enc_attr_is_len(s2[0]);
                assert(spec_endpoint_bytes(p.endpoint.unwrap()).len() <= 28);
            }
        }
        assert(spec_enc_attrs(s3).len() <= 8) by {
            if p.persistent_keepalive_interval is Some {
                assert(s3.drop_first() =~= Seq::<AttrV>::empty());
                assert(spec_enc_attrs(s3) == spec_enc_attr(s3[0]) + spec_enc_attrs(
                    Seq::<AttrV>::empty(),
                ));
                lemma_enc_attr_is_len(s3[0]);
            }
        }
        assert(spec_enc_attrs(s4).len() <= 8) by {
            if spec_peer_flags_bits(p.flags) != 0 {
                assert(s4.drop_first() =~= Seq::<AttrV>::empty());
                assert(spec_enc_attrs(s4) == spec_enc_attr(s4[0]) + spec_enc_attrs(
                    Seq::<AttrV>::empty(),
                ));
                lemma_enc_attr_is_len(s4[0]);
            }
        }
    }
}

// ---------------------------------------------------------------------
// Validation
// ---------------------------------------------------------------------
/// First fault of an allowed-ip list, if any.
pub open spec fn spec_validate_ips(ips: Seq<AllowedIpV>) -> Result<(), BuildError>
    decreases ips.len(),
{
    if ips.len() == 0 {
        Ok(())
    } else if !allowed_ip_wf(ips[0]) {
        Err(BuildError::InvalidAddress)
    } else {
        spec_validate_ips(ips.drop_first())
    }
}

/// First fault of a peer list, if any: a key of the wrong length, a
/// malformed endpoint, or a malformed allowed address.
pub open spec fn spec_validate_peers(ps: Seq<PeerV>) -> Result<(), BuildError>
    decreases ps.len(),
{
    if ps.len() == 0 {
        Ok(())
    } else if ps[0].public_key.len() != 32 {
        Err(BuildError::InvalidKeyLength)
    } else if match ps[0].preshared_key {
        Some(k) => k.len() != 32,
        None => false,
    } {
        Err(BuildError::InvalidKeyLength)
    } else if match ps[0].endpoint {
        Some(e) => !endpoint_wf(e),
        None => false,
    } {
        Err(BuildError::InvalidAddress)
    } else {
        match spec_validate_ips(ps[0].allowed_ips) {
            Ok(_) => spec_validate_peers(ps.drop_first()),
            Err(e) => Err(e),
        }
    }
}

/// First fault of a device, if any; checked before anything is encoded.
pub open spec fn spec_validate_device(d: DeviceV) -> Result<(), BuildError> {
    if !iface_wf(d.interface) {
        Err(BuildError::InvalidInterfaceName)
    } else if match d.private_key {
        Some(k) => k.len() != 32,
        None => false,
    } {
        Err(BuildError::InvalidKeyLength)
    } else if match d.public_key {
        Some(k) => k.len() != 32,
        None => false,
    } {
        Err(BuildError::InvalidKeyLength)
    } else {
        spec_validate_peers(d.peers)
    }
}

pub proof fn lemma_validate_ips_iff(ips: Seq<AllowedIpV>)
    ensures
        spec_validate_ips(ips) is Ok <==> forall|i: int|
            0 <= i < ips.len() ==> allowed_ip_wf(#[trigger] ips[i]),
    decreases ips.len(),
{
    if ips.len() > 0 {
        lemma_validate_ips_iff(ips.drop_first());
        if allowed_ip_wf(ips[0]) && spec_validate_ips(ips.drop_first()) is Ok {
            assert forall|i: int| 0 <= i < ips.len() implies allowed_ip_wf(#[trigger] ips[i]) by {
                if i > 0 {
                    assert(ips[i] == ips.drop_first()[i - 1]);
                }
            }
        }
        if spec_validate_ips(ips) is Ok {
        } else {
            if !allowed_ip_wf(ips[0]) {
            } else {
                assert(spec_validate_ips(ips.drop_first()) is Err);
            }
        }
    }
}

pub proof fn lemma_validate_peers_iff(ps: Seq<PeerV>)
    ensures
        spec_validate_peers(ps) is Ok <==> forall|i: int|
            0 <= i < ps.len() ==> peer_wf(#[trigger] ps[i]),
    decreases ps.len(),
{
    if ps.len() > 0 {
        lemma_validate_peers_iff(ps.drop_first());
        lemma_validate_ips_iff(ps[0].allowed_ips);
        if spec_validate_peers(ps) is Ok {
            assert(peer_wf(ps[0]));
            assert forall|i: int| 0 <= i < ps.len() implies peer_wf(#[trigger] ps[i]) by {
                if i > 0 {
                    assert(ps[i] == ps.drop_first()[i - 1]);
                }
            }
        } else {
            if forall|i: int| 0 <= i < ps.len() ==> peer_wf(#[trigger] ps[i]) {
                assert(peer_wf(ps[0]));
                assert forall|i: int|
                    0 <= i < ps.drop_first().len() implies peer_wf(
                    #[trigger] ps.drop_first()[i],
                ) by {
                    assert(ps.drop_first()[i] == ps[i + 1]);
                }
                assert(false);
            }
        }
    }
}

/// A device validates exactly when it is well formed.
pub proof fn lemma_validate_device_iff(d: DeviceV)
    ensures
        spec_validate_device(d) is Ok <==> device_wf(d),
{
    lemma_validate_peers_iff(d.peers);
}


// ---------------------------------------------------------------------
// Exec builders
// ---------------------------------------------------------------------
fn u16_payload(x: u16) -> (r: Vec<u8>)
    ensures
        r@ == spec_u16_le(x),
{
    let (b0, b1) = u16_to_le(x);
    let mut v: Vec<u8> = Vec::new();
    v.push(b0);
    v.push(b1);
    proof {
        assert(v@ =~= spec_u16_le(x));
    }
    v
}

fn u32_payload(x: u32) -> (r: Vec<u8>)
    ensures
        r@ == spec_u32_le(x),
{
    let (b0, b1, b2, b3) = u32_to_le(x);
    let mut v: Vec<u8> = Vec::new();
    v.push(b0);
    v.push(b1);
    v.push(b2);
    v.push(b3);
    proof {
        assert(v@ =~= spec_u32_le(x));
    }
    v
}

fn push_bytes(out: &mut Vec<u8>, src: &Vec<u8>)
    requires
        old(out)@.len() + src@.len() <= usize::MAX,
    ensures
        final(out)@ == old(out)@ + src@,
{
    let mut k: usize = 0;
    while k < src.len()
        invariant
            k <= src@.len(),
            out@ == old(out)@ + src@.subrange(0, k as int),
        decreases src@.len() - k,
    {
        out.push(src[k]);
        proof {
            assert(old(out)@ + src@.subrange(0, k as int) + seq![src@[k as int]] =~= old(out)@
                + src@.subrange(0, k + 1 as int));
        }
        k = k + 1;
    }
    proof {
        assert(src@.subrange(0, src@.len() as int) =~= src@);
    }
}

fn push_zeros(out: &mut Vec<u8>, n: usize)
    requires
        old(out)@.len() + n <= usize::MAX,
    ensures
        final(out)@ == old(out)@ + spec_zeros(n as int),
{
    let mut k: usize = 0;
    while k < n
        invariant
            k <= n,
            out@ == old(out)@ + spec_zeros(k as int),
        decreases n - k,
    {
        out.push(0u8);
        proof {
            assert(old(out)@ + spec_zeros(k as int) + seq![0u8] =~= old(out)@ + spec_zeros(
                k + 1 as int,
            ));
        }
        k = k + 1;
    }
}

/// Serialize a socket address as its kernel structure.
fn build_endpoint_payload(e: &Endpoint) -> (r: Vec<u8>)
    requires
        endpoint_wf(e@),
    ensures
        r@ == spec_endpoint_bytes(e@),
{
    match &e.addr {
        IpAddr::V4(b) => {
            let fam = crate::sys::af_inet();
            let mut v = u16_payload(fam);
            let (p0, p1) = u16_to_be(e.port);
            v.push(p0);
            v.push(p1);
            proof {
                assert(v@ =~= spec_u16_le(2) + spec_u16_be(e@.port));
            }
            push_bytes(&mut v, b);
            push_zeros(&mut v, 8);
            proof {
                assert(v@ =~= spec_endpoint_bytes(e@));
            }
            v
        },
        IpAddr::V6(b) => {
            let fam = crate::sys::af_inet6();
            let mut v = u16_payload(fam);
            let (p0, p1) = u16_to_be(e.port);
            v.push(p0);
            v.push(p1);
            proof {
                assert(v@ =~= spec_u16_le(10) + spec_u16_be(e@.port));
            }
            push_zeros(&mut v, 4);
            push_bytes(&mut v, b);
            push_zeros(&mut v, 4);
            proof {
                assert(v@ =~= spec_endpoint_bytes(e@));
            }
            v
        },
    }
}

/// The interface-identity attribute of a message.
pub fn build_iface_attr(ifc: &DeviceInterface) -> (r: NlAttr)
    requires
        iface_wf(ifc@),
    ensures
        r@ == spec_iface_attr(ifc@),
        attr_wf(r@),
        spec_enc_attr_len(r@) <= 20,
{
    match ifc {
        DeviceInterface::Index(x) => {
            let r = NlAttr { tag: WGDEVICE_A_IFINDEX, nested: false, payload: u32_payload(*x) };
            r
        },
        DeviceInterface::Name(n) => {
            let mut p = vstd::slice::slice_to_vec(n.as_str().as_bytes());
            p.push(0u8);
            proof {
                assert(p@ =~= str_bytes(n@) + seq![0u8]);
            }
            NlAttr { tag: WGDEVICE_A_IFNAME, nested: false, payload: p }
        },
    }
}

/// The peer flag bits of the 32-bit flags attribute.
pub fn peer_flags_bits(f: PeerFlags) -> (r: u32)
    ensures
        r == spec_peer_flags_bits(f),
{
    let mut v: u32 = 0;
    if f.remove_me {
        v = v + 1;
    }
    if f.replace_allowed_ips {
        v = v + 2;
    }
    if f.update_only {
        v = v + 4;
    }
    v
}

/// The fixed attributes of one peer fragment.
pub fn build_peer_fixed(p: &Peer, cont: bool) -> (r: Vec<NlAttr>)
    requires
        peer_wf(p@),
    ensures
        attrs_view(r@) == spec_peer_fixed_attrs(p@, cont),
{
    let ghost keyv = AttrV { tag: WGPEER_A_PUBLIC_KEY, nested: false, payload: p@.public_key };
    let mut v: Vec<NlAttr> = Vec::new();
    v.push(NlAttr { tag: WGPEER_A_PUBLIC_KEY, nested: false, payload: bytes_copy(&p.public_key) });
    proof {
        assert(attrs_view(v@) =~= seq![keyv]);
    }
    if cont {
        proof {
            assert(spec_peer_fixed_attrs(p@, true) =~= seq![keyv]);
        }
        return v;
    }
    let ghost s1 = match p@.preshared_key {
        Some(k) => seq![AttrV { tag: WGPEER_A_PRESHARED_KEY, nested: false, payload: k }],
        None => Seq::<AttrV>::empty(),
    };
    let ghost s2 = match p@.endpoint {
        Some(e) => seq![
            AttrV { tag: WGPEER_A_ENDPOINT, nested: false, payload: spec_endpoint_bytes(e) },
        ],
        None => Seq::<AttrV>::empty(),
    };
    let ghost s3 = match p@.persistent_keepalive_interval {
        Some(x) => seq![
            AttrV {
                tag: WGPEER_A_PERSISTENT_KEEPALIVE_INTERVAL,
                nested: false,
                payload: spec_u16_le(x),
            },
        ],
        None => Seq::<AttrV>::empty(),
    };
    let ghost s4 = if spec_peer_flags_bits(p@.flags) != 0 {
        seq![
            AttrV {
                tag: WGPEER_A_FLAGS,
                nested: false,
                payload: spec_u32_le(spec_peer_flags_bits(p@.flags)),
            },
        ]
    } else {
        Seq::<AttrV>::empty()
    };
    match &p.preshared_key {
        Some(k) => {
            v.push(NlAttr { tag: WGPEER_A_PRESHARED_KEY, nested: false, payload: bytes_copy(k) });
        },
        None => {},
    }
    proof {
        assert(attrs_view(v@) =~= seq![keyv] + s1);
    }
    match &p.endpoint {
        Some(e) => {
            v.push(
                NlAttr { tag: WGPEER_A_ENDPOINT, nested: false, payload: build_endpoint_payload(e) },
            );
        },
        None => {},
    }
    proof {
        assert(attrs_view(v@) =~= seq![keyv] + s1 + s2);
    }
    match p.persistent_keepalive_interval {
        Some(x) => {
            v.push(
                NlAttr {
                    tag: WGPEER_A_PERSISTENT_KEEPALIVE_INTERVAL,
                    nested: false,
                    payload: u16_payload(x),
                },
            );
        },
        None => {},
    }
    proof {
        assert(attrs_view(v@) =~= seq![keyv] + s1 + s2 + s3);
    }
    let bits = peer_flags_bits(p.flags);
    if bits != 0 {
        v.push(NlAttr { tag: WGPEER_A_FLAGS, nested: false, payload: u32_payload(bits) });
    }
    proof {
        assert(attrs_view(v@) =~= seq![keyv] + s1 + s2 + s3 + s4);
        assert(spec_peer_fixed_attrs(p@, false) == seq![keyv] + (s1 + s2 + s3 + s4));
        assert(seq![keyv] + s1 + s2 + s3 + s4 =~= seq![keyv] + (s1 + s2 + s3 + s4));
    }
    v
}

/// The device-level scalar attributes of the first message.
pub fn build_dev_scalars(d: &Device) -> (r: Vec<NlAttr>)
    requires
        device_wf(d@),
    ensures
        attrs_view(r@) == spec_dev_scalar_attrs(d@),
{
    let ghost ifav = spec_iface_attr(d@.interface);
    let ghost s1 = match d@.private_key {
        Some(k) => seq![AttrV { tag: WGDEVICE_A_PRIVATE_KEY, nested: false, payload: k }],
        None => Seq::<AttrV>::empty(),
    };
    let ghost s2 = match d@.public_key {
        Some(k) => seq![AttrV { tag: WGDEVICE_A_PUBLIC_KEY, nested: false, payload: k }],
        None => Seq::<AttrV>::empty(),
    };
    let ghost s3 = match d@.listen_port {
        Some(x) => seq![AttrV { tag: WGDEVICE_A_LISTEN_PORT, nested: false, payload: spec_u16_le(x) }],
        None => Seq::<AttrV>::empty(),
    };
    let ghost s4 = match d@.fwmark {
        Some(x) => seq![AttrV { tag: WGDEVICE_A_FWMARK, nested: false, payload: spec_u32_le(x) }],
        None => Seq::<AttrV>::empty(),
    };
    let ghost s5 = if d@.replace_peers {
        seq![AttrV { tag: WGDEVICE_A_FLAGS, nested: false, payload: spec_u32_le(1) }]
    } else {
        Seq::<AttrV>::empty()
    };
    let mut v: Vec<NlAttr> = Vec::new();
    v.push(build_iface_attr(&d.interface));
    proof {
        assert(attrs_view(v@) =~= seq![ifav]);
    }
    match &d.private_key {
        Some(k) => {
            v.push(NlAttr { tag: WGDEVICE_A_PRIVATE_KEY, nested: false, payload: bytes_copy(k) });
        },
        None => {},
    }
    proof {
        assert(attrs_view(v@) =~= seq![ifav] + s1);
    }
    match &d.public_key {
        Some(k) => {
            v.push(NlAttr { tag: WGDEVICE_A_PUBLIC_KEY, nested: false, payload: bytes_copy(k) });
        },
        None => {},
    }
    proof {
        assert(attrs_view(v@) =~= seq![ifav] + s1 + s2);
    }
    match d.listen_port {
        Some(x) => {
            v.push(NlAttr { tag: WGDEVICE_A_LISTEN_PORT, nested: false, payload: u16_payload(x) });
        },
        None => {},
    }
    proof {
        assert(attrs_view(v@) =~= seq![ifav] + s1 + s2 + s3);
    }
    match d.fwmark {
        Some(x) => {
            v.push(NlAttr { tag: WGDEVICE_A_FWMARK, nested: false, payload: u32_payload(x) });
        },
        None => {},
    }
    proof {
        assert(attrs_view(v@) =~= seq![ifav] + s1 + s2 + s3 + s4);
    }
    if d.replace_peers {
        v.push(NlAttr { tag: WGDEVICE_A_FLAGS, nested: false, payload: u32_payload(1) });
    }
    proof {
        assert(attrs_view(v@) =~= seq![ifav] + s1 + s2 + s3 + s4 + s5);
        assert(spec_dev_scalar_attrs(d@) == seq![ifav] + (s1 + s2 + s3 + s4 + s5));
        assert(seq![ifav] + s1 + s2 + s3 + s4 + s5 =~= seq![ifav] + (s1 + s2 + s3 + s4 + s5));
    }
    v
}

/// One allowed-ip entry as a container child.
pub fn build_ip_attr(ip: &AllowedIp) -> (r: NlAttr)
    requires
        allowed_ip_wf(ip@),
    ensures
        r@ == spec_ip_attr(ip@),
        attr_wf(r@),
        spec_enc_attr_len(r@) == spec_ip_attr_len(ip@),
{
    let fam: u16 = match &ip.ipaddr {
        IpAddr::V4(_) => crate::sys::af_inet(),
        IpAddr::V6(_) => crate::sys::af_inet6(),
    };
    let addr_bytes: Vec<u8> = match &ip.ipaddr {
        IpAddr::V4(b) => bytes_copy(b),
        IpAddr::V6(b) => bytes_copy(b),
    };
    let cidr: u8 = match ip.cidr_mask {
        Some(c) => c,
        None => match &ip.ipaddr {
            IpAddr::V4(_) => 32,
            IpAddr::V6(_) => 128,
        },
    };
    let mut cp: Vec<u8> = Vec::new();
    cp.push(cidr);
    let mut entries: Vec<NlAttr> = Vec::new();
    entries.push(NlAttr { tag: WGALLOWEDIP_A_FAMILY, nested: false, payload: u16_payload(fam) });
    entries.push(NlAttr { tag: WGALLOWEDIP_A_IPADDR, nested: false, payload: addr_bytes });
    entries.push(NlAttr { tag: WGALLOWEDIP_A_CIDR_MASK, nested: false, payload: cp });
    proof {
        assert(cidr == ip@.cidr);
        assert(attrs_view(entries@) =~= spec_ip_entry_attrs(ip@));
        lemma_ip_entry_attrs_wf(ip@);
    }
    let payload = encode_attrs(&entries);
    NlAttr { tag: 0, nested: true, payload }
}

/// Encoded size of one allowed-ip entry.
pub fn ip_attr_len(ip: &AllowedIp) -> (r: usize)
    requires
        allowed_ip_wf(ip@),
    ensures
        r == spec_ip_attr_len(ip@),
        r <= 40,
{
    match &ip.ipaddr {
        IpAddr::V4(_) => 28,
        IpAddr::V6(_) => 40,
    }
}

/// Whether an endpoint's address width matches its family.
fn endpoint_valid(e: &Endpoint) -> (r: bool)
    ensures
        r == endpoint_wf(e@),
{
    match &e.addr {
        IpAddr::V4(b) => b.len() == 4,
        IpAddr::V6(b) => b.len() == 16,
    }
}

/// Check a device before encoding anything: reports the first fault.
#[verifier::loop_isolation(false)]
pub fn validate_device(d: &Device) -> (r: Result<(), BuildError>)
    ensures
        r == spec_validate_device(d@),
{
    if !d.interface.is_valid() {
        return Err(BuildError::InvalidInterfaceName);
    }
    match &d.private_key {
        Some(k) => {
            if k.len() != 32 {
                return Err(BuildError::InvalidKeyLength);
            }
        },
        None => {},
    }
    match &d.public_key {
        Some(k) => {
            if k.len() != 32 {
                return Err(BuildError::InvalidKeyLength);
            }
        },
        None => {},
    }
    let ghost full = d@.peers;
    proof {
        assert(iface_wf(d@.interface));
        assert(spec_validate_device(d@) == spec_validate_peers(d@.peers));
    }
    let mut i: usize = 0;
    proof {
        assert(full.skip(0) =~= full);
    }
    while i < d.peers.len()
        invariant
            i <= d.peers@.len(),
            full == d@.peers,
            spec_validate_peers(full) == spec_validate_peers(full.skip(i as int)),
        decreases d.peers@.len() - i,
    {
        proof {
            assert(full.skip(i as int)[0] == full[i as int]);
            assert(full[i as int] == d.peers@[i as int]@);
            assert(full.skip(i as int).drop_first() =~= full.skip(i + 1));
        }
        let p = &d.peers[i];
        if p.public_key.len() != 32 {
            proof {
                assert(spec_validate_peers(full.skip(i as int)) == Err::<(), BuildError>(
                    BuildError::InvalidKeyLength,
                ));
            }
            return Err(BuildError::InvalidKeyLength);
        }
        match &p.preshared_key {
            Some(k) => {
                if k.len() != 32 {
                    proof {
                        assert(spec_validate_peers(full.skip(i as int)) == Err::<(), BuildError>(
                            BuildError::InvalidKeyLength,
                        ));
                    }
                    return Err(BuildError::InvalidKeyLength);
                }
            },
            None => {},
        }
        match &p.endpoint {
            Some(e) => {
                if !endpoint_valid(e) {
                    proof {
                        assert(spec_validate_peers(full.skip(i as int)) == Err::<(), BuildError>(
                            BuildError::InvalidAddress,
                        ));
                    }
                    return Err(BuildError::InvalidAddress);
                }
            },
            None => {},
        }
        let ghost ipfull = p@.allowed_ips;
        proof {
            assert(p@.public_key.len() == 32);
            assert(match p@.preshared_key {
                Some(k) => k.len() == 32,
                None => true,
            });
            assert(match p@.endpoint {
                Some(e) => endpoint_wf(e),
                None => true,
            });
            assert(spec_validate_peers(full.skip(i as int)) == match spec_validate_ips(ipfull) {
                Ok(u) => spec_validate_peers(full.skip(i as int).drop_first()),
                Err(e) => Err(e),
            });
        }
        let mut k: usize = 0;
        proof {
            assert(ipfull.skip(0) =~= ipfull);
        }
        while k < p.allowed_ips.len()
            invariant
                k <= p.allowed_ips@.len(),
                ipfull == p@.allowed_ips,
                spec_validate_ips(ipfull) == spec_validate_ips(ipfull.skip(k as int)),
            decreases p.allowed_ips@.len() - k,
        {
            proof {
                assert(ipfull.skip(k as int)[0] == ipfull[k as int]);
                assert(ipfull[k as int] == p.allowed_ips@[k as int]@);
                assert(ipfull.skip(k as int).drop_first() =~= ipfull.skip(k + 1));
            }
            let ipok = match &p.allowed_ips[k].ipaddr {
                IpAddr::V4(b) => b.len() == 4,
                IpAddr::V6(b) => b.len() == 16,
            };
            if !ipok {
                proof {
                    assert(spec_validate_ips(ipfull.skip(k as int)) == Err::<(), BuildError>(
                        BuildError::InvalidAddress,
                    ));
                    assert(spec_validate_ips(ipfull) == Err::<(), BuildError>(
                        BuildError::InvalidAddress,
                    ));
                    assert(spec_validate_peers(full.skip(i as int)) == Err::<(), BuildError>(
                        BuildError::InvalidAddress,
                    ));
                }
                return Err(BuildError::InvalidAddress);
            }
            k = k + 1;
        }
        proof {
            assert(ipfull.skip(ipfull.len() as int) =~= Seq::<AllowedIpV>::empty());
        }
        i = i + 1;
    }
    proof {
        assert(full.skip(full.len() as int) =~= Seq::<PeerV>::empty());
    }
    Ok(())
}


// ---------------------------------------------------------------------
// The fragmenter
// ---------------------------------------------------------------------
/// One wire message of the device-configuration protocol: the resolved
/// family, the command header fields, the header flags, and the
/// attribute list.
pub struct WgMessage {
    pub family_id: u16,
    pub cmd: u8,
    pub version: u8,
    pub nl_flags: u16,
    pub attrs: Vec<NlAttr>,
}

/// The attribute lists of a message sequence, as the aggregator reads
/// them.
pub open spec fn msg_attr_views(ms: Seq<WgMessage>) -> Seq<Seq<AttrV>> {
    ms.map_values(|m: WgMessage| attrs_view(m.attrs@))
}

/// No device-level scalar travels in this attribute list.
pub open spec fn no_scalar_tags(s: Seq<AttrV>) -> bool {
    forall|k: int|
        0 <= k < s.len() ==> (#[trigger] s[k]).tag != WGDEVICE_A_PRIVATE_KEY && s[k].tag
            != WGDEVICE_A_PUBLIC_KEY && s[k].tag != WGDEVICE_A_LISTEN_PORT && s[k].tag
            != WGDEVICE_A_FWMARK && s[k].tag != WGDEVICE_A_FLAGS
}

/// The peers represented once peers `0 .. i` are fully emitted and, when
/// `cont`, the first `j` addresses of peer `i` as well.
pub open spec fn spec_done_peers(dv: DeviceV, i: int, j: int, cont: bool) -> Seq<PeerV> {
    if cont {
        dv.peers.take(i).push(
            PeerV { allowed_ips: dv.peers[i].allowed_ips.take(j), ..dv.peers[i] },
        )
    } else {
        dv.peers.take(i)
    }
}

/// A length already aligned stays put; adding the four header bytes to
/// an aligned length keeps it aligned.
pub proof fn lemma_align4_plus4(n: int)
    requires
        n >= 0,
        n % 4 == 0,
    ensures
        spec_align4(n + 4) == n + 4,
{
    assert((n + 4) % 4 == 0) by (nonlinear_arith)
        requires
            n >= 0 && n % 4 == 0,
    ;
}

/// Size of one whole message: the header attributes plus, when a peer
/// container travels, its padded record.
pub proof fn lemma_msg_size(hdr: Seq<AttrV>, children: Seq<AttrV>)
    ensures
        spec_enc_attrs(spec_msg_attrs(hdr, children)).len() == spec_enc_attrs(hdr).len() + (
        if children.len() > 0 {
            spec_align4(spec_enc_attrs(children).len() + 4 as int)
        } else {
            0int
        }),
{
    if children.len() > 0 {
        let pa = AttrV { tag: WGDEVICE_A_PEERS, nested: true, payload: spec_enc_attrs(children) };
        lemma_enc_attrs_app(hdr, seq![pa]);
        lemma_enc_attr_is_len(pa);
        assert(seq![pa].drop_first() =~= Seq::<AttrV>::empty());
        assert(spec_enc_attrs(seq![pa]) == spec_enc_attr(pa) + spec_enc_attrs(
            Seq::<AttrV>::empty(),
        ));
    } else {
        assert(spec_msg_attrs(hdr, children) =~= hdr);
    }
}

/// A message whose header carries no scalars carries none at all: the
/// only other record is the peer container.
pub proof fn lemma_msg_no_scalars(hdr: Seq<AttrV>, children: Seq<AttrV>)
    requires
        no_scalar_tags(hdr),
    ensures
        no_scalar_tags(spec_msg_attrs(hdr, children)),
{
    let s = spec_msg_attrs(hdr, children);
    assert forall|k: int|
        0 <= k < s.len() implies (#[trigger] s[k]).tag != WGDEVICE_A_PRIVATE_KEY && s[k].tag
        != WGDEVICE_A_PUBLIC_KEY && s[k].tag != WGDEVICE_A_LISTEN_PORT && s[k].tag
        != WGDEVICE_A_FWMARK && s[k].tag != WGDEVICE_A_FLAGS by {
        if k < hdr.len() {
            assert(s[k] == hdr[k]);
        } else {
            assert(s[k].tag == WGDEVICE_A_PEERS);
        }
    }
}

/// Appending one more peer to the new side of a coalescing step, where
/// the first new peer is no continuation.
pub proof fn lemma_coalesce_step_fresh(old: Seq<PeerV>, new: Seq<PeerV>, q: PeerV)
    requires
        new.len() == 0 ==> old.len() == 0 || q.public_key != old.last().public_key,
    ensures
        spec_coalesce(old, new.push(q)) == spec_coalesce(old, new).push(q),
{
    if new.len() > 0 {
        lemma_coalesce_push(old, new, q);
    } else {
        lemma_coalesce_fresh(old, q);
        assert(new.push(q) =~= seq![q]);
        assert(old + new =~= old);
    }
}

/// Emitting the slice `[0, j1)` of peer `i` as a fresh fragment advances
/// the represented peers by exactly that fragment.
pub proof fn lemma_done_push(dv: DeviceV, i: int, j1: int)
    requires
        0 <= i < dv.peers.len(),
        0 <= j1 <= dv.peers[i].allowed_ips.len(),
    ensures
        spec_done_peers(dv, i, 0, false).push(spec_frag_peer(dv.peers[i], 0, j1, false)) == (
        if j1 == dv.peers[i].allowed_ips.len() {
            spec_done_peers(dv, i + 1, 0, false)
        } else {
            spec_done_peers(dv, i, j1, true)
        }),
{
    let p = dv.peers[i];
    assert(p.allowed_ips.subrange(0, j1) =~= p.allowed_ips.take(j1));
    if j1 == p.allowed_ips.len() {
        assert(p.allowed_ips.take(j1) =~= p.allowed_ips);
        assert(spec_frag_peer(p, 0, j1, false) =~= p);
        assert(dv.peers.take(i).push(p) =~= dv.peers.take(i + 1));
        assert(spec_done_peers(dv, i, 0, false).push(spec_frag_peer(p, 0, j1, false))
            =~= spec_done_peers(dv, i + 1, 0, false));
    } else {
        assert(spec_frag_peer(p, 0, j1, false) =~= PeerV {
            allowed_ips: p.allowed_ips.take(j1),
            ..p
        });
        assert(spec_done_peers(dv, i, 0, false).push(spec_frag_peer(p, 0, j1, false))
            =~= spec_done_peers(dv, i, j1, true));
    }
}

/// Handing a continuation slice `[j0, j1)` to the partially represented
/// peer `i` advances the represented peers by exactly that slice.
pub proof fn lemma_done_extend(dv: DeviceV, i: int, j0: int, j1: int)
    requires
        0 <= i < dv.peers.len(),
        0 < j0 < j1 <= dv.peers[i].allowed_ips.len(),
    ensures
        ({
            let old = spec_done_peers(dv, i, j0, true);
            let q = spec_frag_peer(dv.peers[i], j0, j1, true);
            old.update(
                old.len() - 1,
                PeerV { allowed_ips: old.last().allowed_ips + q.allowed_ips, ..old.last() },
            ) == (if j1 == dv.peers[i].allowed_ips.len() {
                spec_done_peers(dv, i + 1, 0, false)
            } else {
                spec_done_peers(dv, i, j1, true)
            })
        }),
{
    let p = dv.peers[i];
    let old = spec_done_peers(dv, i, j0, true);
    let partial0 = PeerV { allowed_ips: p.allowed_ips.take(j0), ..p };
    assert(old == dv.peers.take(i).push(partial0));
    assert(old.len() == i + 1);
    assert(old.last() == partial0);
    let q = spec_frag_peer(p, j0, j1, true);
    let merged = PeerV { allowed_ips: old.last().allowed_ips + q.allowed_ips, ..old.last() };
    assert(p.allowed_ips.take(j0) + p.allowed_ips.subrange(j0, j1) =~= p.allowed_ips.take(j1));
    assert(merged =~= PeerV { allowed_ips: p.allowed_ips.take(j1), ..p });
    assert(old.update(old.len() - 1, merged) =~= dv.peers.take(i).push(merged));
    if j1 == p.allowed_ips.len() {
        assert(p.allowed_ips.take(j1) =~= p.allowed_ips);
        assert(merged =~= p);
        assert(dv.peers.take(i).push(merged) =~= dv.peers.take(i + 1));
        assert(old.update(old.len() - 1, merged) =~= spec_done_peers(dv, i + 1, 0, false));
    } else {
        assert(old.update(old.len() - 1, merged) =~= spec_done_peers(dv, i, j1, true));
    }
}


/// Pushing one well-formed child onto a container's child list.
pub proof fn lemma_children_push(cs: Seq<AttrV>, c: AttrV)
    requires
        attrs_wf(cs),
        attr_wf(c),
    ensures
        attrs_wf(cs.push(c)),
        spec_enc_attrs(cs.push(c)).len() == spec_enc_attrs(cs).len() + spec_enc_attr_len(c),
{
    lemma_enc_attrs_push(cs, c);
    lemma_attrs_wf_concat(cs, seq![c]);
    assert(cs + seq![c] =~= cs.push(c));
}

/// Everything the proof tracks about the open message's peer container:
/// its children are well formed, their encoded length is known, and they
/// parse to exactly the peers appended so far.
#[verifier::opaque]
pub open spec fn children_ok(cs: Seq<AttrV>, ps: Seq<PeerV>, clen: int) -> bool {
    &&& attrs_wf(cs)
    &&& clen == spec_enc_attrs(cs).len()
    &&& cs.len() == ps.len()
    &&& spec_peer_list(cs) == Ok::<Seq<PeerV>, DecodeError>(ps)
}

pub proof fn lemma_children_ok_empty()
    ensures
        children_ok(Seq::<AttrV>::empty(), Seq::<PeerV>::empty(), 0),
{
    reveal(children_ok);
    assert(spec_peer_list(Seq::<AttrV>::empty()) == Ok::<Seq<PeerV>, DecodeError>(
        Seq::<PeerV>::empty(),
    ));
    assert(spec_enc_attrs(Seq::<AttrV>::empty()).len() == 0);
}

pub proof fn lemma_children_ok_push(cs: Seq<AttrV>, ps: Seq<PeerV>, clen: int, c: AttrV, q: PeerV)
    requires
        children_ok(cs, ps, clen),
        attr_wf(c),
        spec_parse_peer_child(c) == Ok::<PeerV, DecodeError>(q),
    ensures
        children_ok(cs.push(c), ps.push(q), clen + spec_enc_attr_len(c)),
{
    reveal(children_ok);
    lemma_children_push(cs, c);
    lemma_peer_list_push(cs, c, ps, q);
}

pub proof fn lemma_children_ok_facts(cs: Seq<AttrV>, ps: Seq<PeerV>, clen: int)
    requires
        children_ok(cs, ps, clen),
    ensures
        attrs_wf(cs),
        clen == spec_enc_attrs(cs).len(),
        cs.len() == ps.len(),
        spec_peer_list(cs) == Ok::<Seq<PeerV>, DecodeError>(ps),
        cs.len() == 0 ==> clen == 0,
{
    reveal(children_ok);
    if cs.len() == 0 {
        assert(cs =~= Seq::<AttrV>::empty());
    }
}

/// One fragment appended to the open message advances the represented
/// peers by exactly that fragment, whether it opens a fresh peer or
/// continues the one cut at the previous message boundary.
#[verifier::rlimit(100)]
pub proof fn lemma_track_push(
    dv: DeviceV,
    closedp: Seq<PeerV>,
    cur_ps: Seq<PeerV>,
    msgs_empty: bool,
    i: int,
    j: int,
    cont: bool,
    j1: int,
    q: PeerV,
)
    requires
        peers_adjacent_distinct(dv.peers),
        0 <= i < dv.peers.len(),
        !cont ==> j == 0,
        cont ==> 0 < j < dv.peers[i].allowed_ips.len() && cur_ps.len() == 0 && !msgs_empty,
        j <= j1 <= dv.peers[i].allowed_ips.len(),
        cont ==> j < j1,
        q == spec_frag_peer(dv.peers[i], j, j1, cont),
        (if msgs_empty {
            cur_ps
        } else {
            spec_coalesce(closedp, cur_ps)
        }) == spec_done_peers(dv, i, j, cont),
    ensures
        (if msgs_empty {
            cur_ps.push(q)
        } else {
            spec_coalesce(closedp, cur_ps.push(q))
        }) == (if j1 == dv.peers[i].allowed_ips.len() {
            spec_done_peers(dv, i + 1, 0, false)
        } else {
            spec_done_peers(dv, i, j1, true)
        }),
{
    let p = dv.peers[i];
    if cont {
        assert(cur_ps =~= Seq::<PeerV>::empty());
        assert(spec_coalesce(closedp, cur_ps) =~= closedp);
        assert(closedp == spec_done_peers(dv, i, j, true));
        assert(closedp.len() == i + 1);
        assert(closedp.last() == PeerV { allowed_ips: p.allowed_ips.take(j), ..p });
        assert(q.public_key == closedp.last().public_key);
        lemma_coalesce_cont(closedp, q);
        assert(cur_ps.push(q) =~= seq![q]);
        lemma_done_extend(dv, i, j, j1);
    } else {
        lemma_done_push(dv, i, j1);
        if msgs_empty {
        } else {
            if cur_ps.len() == 0 {
                assert(spec_coalesce(closedp, cur_ps) =~= closedp);
                assert(closedp == spec_done_peers(dv, i, 0, false));
                if i > 0 {
                    assert(closedp.last() == dv.peers[i - 1]);
                    assert(dv.peers[i].public_key != dv.peers[i - 1].public_key);
                }
            }
            lemma_coalesce_step_fresh(closedp, cur_ps, q);
        }
    }
}

/// A message header that carries no scalar fields: only the interface
/// identity.
pub open spec fn spec_iface_only(d: DeviceV) -> DeviceV {
    DeviceV {
        interface: d.interface,
        private_key: None,
        public_key: None,
        listen_port: None,
        fwmark: None,
        peers: Seq::empty(),
        replace_peers: false,
    }
}

/// The header attributes of a message: all scalars on the first, the
/// interface identity alone afterwards.
pub open spec fn spec_hdr_attrs(d: DeviceV, first: bool) -> Seq<AttrV> {
    if first {
        spec_dev_scalar_attrs(d)
    } else {
        seq![spec_iface_attr(d.interface)]
    }
}

/// What a message header folds to.
pub open spec fn spec_hdr_acc(d: DeviceV, first: bool) -> DevAcc {
    if first {
        spec_scalar_acc(d)
    } else {
        spec_scalar_acc(spec_iface_only(d))
    }
}

/// Build one message's header attributes, with everything the merge
/// proof needs to know about them.
#[verifier::rlimit(100)]
pub fn build_msg_hdr(device: &Device, first: bool) -> (r: Vec<NlAttr>)
    requires
        device_wf(device@),
    ensures
        attrs_view(r@) == spec_hdr_attrs(device@, first),
        attrs_wf(attrs_view(r@)),
        spec_enc_attrs(attrs_view(r@)).len() <= 116,
        spec_dev_fold(Ok(dev_acc_empty()), attrs_view(r@)) == Ok::<DevAcc, DecodeError>(
            spec_hdr_acc(device@, first),
        ),
        spec_hdr_acc(device@, first).peers == Seq::<PeerV>::empty(),
        first ==> spec_dev_finish(spec_hdr_acc(device@, true)) == Ok::<DeviceV, DecodeError>(
            DeviceV { peers: Seq::<PeerV>::empty(), ..device@ },
        ),
        !first ==> no_scalar_tags(attrs_view(r@)),
{
    if first {
        let r = build_dev_scalars(device);
        proof {
            lemma_dev_scalars_fold(device@);
            lemma_scalars_enc_len(device@);
            lemma_dev_scalars_wf(device@);
            let acc = spec_scalar_acc(device@);
            match device@.interface {
                DeviceInterfaceV::Name(n) => {
                    assert(spec_dev_finish(acc) is Ok);
                },
                DeviceInterfaceV::Index(x) => {
                    assert(spec_dev_finish(acc) is Ok);
                },
            }
            let b = spec_dev_finish(acc).unwrap();
            assert(b =~= DeviceV { peers: Seq::<PeerV>::empty(), ..device@ });
            assert(spec_dev_finish(acc) == Ok::<DeviceV, DecodeError>(
                DeviceV { peers: Seq::<PeerV>::empty(), ..device@ },
            ));
        }
        r
    } else {
        let mut h: Vec<NlAttr> = Vec::new();
        h.push(build_iface_attr(&device.interface));
        proof {
            let d0 = spec_iface_only(device@);
            assert(device_wf(d0));
            lemma_dev_scalars_fold(d0);
            lemma_scalars_enc_len(d0);
            lemma_dev_scalars_wf(d0);
            assert(spec_dev_scalar_attrs(d0) =~= seq![spec_iface_attr(device@.interface)]);
            assert(attrs_view(h@) =~= spec_dev_scalar_attrs(d0));
            assert(no_scalar_tags(attrs_view(h@))) by {
                assert(attrs_view(h@).len() == 1);
                assert(attrs_view(h@)[0] == spec_iface_attr(device@.interface));
            }
        }
        h
    }
}

/// Encoded size of a peer fragment's fixed attributes.
pub fn peer_fixed_len(p: &Peer, cont: bool) -> (r: usize)
    requires
        peer_wf(p@),
    ensures
        r == spec_enc_attrs(spec_peer_fixed_attrs(p@, cont)).len(),
        r <= 120,
        r % 4 == 0,
{
    let fx = build_peer_fixed(p, cont);
    proof {
        lemma_fixed_enc_len(p@, cont);
        lemma_enc_len_mod4(spec_peer_fixed_attrs(p@, cont));
        lemma_peer_fixed_wf(p@, cont);
    }
    let b = encode_attrs(&fx);
    b.len()
}

/// A peer with no allowed addresses, as one container child.
pub fn build_empty_peer_frag(p: &Peer) -> (r: (NlAttr, usize))
    requires
        peer_wf(p@),
        p.allowed_ips@.len() == 0,
    ensures
        r.0@ == spec_peer_frag_attr(p@, 0, 0, false),
        attr_wf(r.0@),
        r.1 == spec_enc_attr_len(r.0@),
        r.1 <= 124,
        r.1 % 4 == 0,
        r.1 == 4 + spec_enc_attrs(spec_peer_fixed_attrs(p@, false)).len(),
        spec_parse_peer_child(r.0@) == Ok::<PeerV, DecodeError>(p@),
{
    let fx = build_peer_fixed(p, false);
    proof {
        lemma_fixed_enc_len(p@, false);
        lemma_peer_fixed_wf(p@, false);
        lemma_enc_len_mod4(spec_peer_fixed_attrs(p@, false));
        assert(spec_ip_attrs(p@.allowed_ips.subrange(0, 0)) =~= Seq::<AttrV>::empty());
        lemma_parse_peer_frag(p@, 0, 0, false);
        assert(spec_frag_peer(p@, 0, 0, false) =~= p@) by {
            assert(p@.allowed_ips.subrange(0, 0) =~= p@.allowed_ips);
        }
        assert(spec_peer_frag_attrs(p@, 0, 0, false) =~= spec_peer_fixed_attrs(p@, false));
    }
    let payload = encode_attrs(&fx);
    let plen = payload.len();
    let frag = NlAttr { tag: 0, nested: true, payload };
    proof {
        assert(frag@ == spec_peer_frag_attr(p@, 0, 0, false));
        lemma_align4_plus4(plen as int);
        assert(spec_enc_attr_len(frag@) == 4 + plen);
    }
    (frag, 4 + plen)
}

/// One peer fragment: the fixed attributes plus as many addresses,
/// starting at `j0`, as the byte budget admits.  At least one address is
/// always taken, which the budget precondition guarantees room for.
#[verifier::rlimit(100)]
#[verifier::spinoff_prover]
pub fn build_peer_frag(p: &Peer, j0: usize, budget: usize, cont: bool) -> (r: (
    NlAttr,
    usize,
    usize,
))
    requires
        peer_wf(p@),
        j0 < p.allowed_ips@.len(),
        budget <= MAX_GENL_PAYLOAD_LENGTH,
        4 + spec_enc_attrs(spec_peer_fixed_attrs(p@, cont)).len() + 4 + spec_ip_attr_len(
            p@.allowed_ips[j0 as int],
        ) <= budget,
    ensures
        ({
            let (frag, j1, flen) = r;
            &&& j0 < j1 <= p.allowed_ips@.len()
            &&& frag@ == spec_peer_frag_attr(p@, j0 as int, j1 as int, cont)
            &&& attr_wf(frag@)
            &&& flen == spec_enc_attr_len(frag@)
            &&& flen <= budget
            &&& flen % 4 == 0
            &&& spec_parse_peer_child(frag@) == Ok::<PeerV, DecodeError>(
                spec_frag_peer(p@, j0 as int, j1 as int, cont),
            )
        }),
{
    let fx = build_peer_fixed(p, cont);
    proof {
        lemma_fixed_enc_len(p@, cont);
        lemma_peer_fixed_wf(p@, cont);
        lemma_enc_len_mod4(spec_peer_fixed_attrs(p@, cont));
        assert(p@.allowed_ips[j0 as int] == p.allowed_ips@[j0 as int]@);
        assert(allowed_ip_wf(p@.allowed_ips[j0 as int]));
    }
    let fx_bytes = encode_attrs(&fx);
    let fx_len = fx_bytes.len();
    let ip_budget = budget - 4 - fx_len - 4;
    let mut ip_payload: Vec<u8> = Vec::new();
    let mut j: usize = j0;
    let mut full: bool = false;
    proof {
        assert(spec_ip_attrs(p@.allowed_ips.subrange(j0 as int, j0 as int)) =~= Seq::<
            AttrV,
        >::empty());
    }
    while j < p.allowed_ips.len() && !full
        invariant
            peer_wf(p@),
            j0 <= j <= p.allowed_ips@.len(),
            j0 < p.allowed_ips@.len(),
            j == j0 ==> !full && ip_payload@.len() == 0,
            spec_ip_attr_len(p@.allowed_ips[j0 as int]) <= ip_budget,
            ip_budget <= MAX_GENL_PAYLOAD_LENGTH,
            ip_payload@ == spec_enc_attrs(
                spec_ip_attrs(p@.allowed_ips.subrange(j0 as int, j as int)),
            ),
            ip_payload@.len() <= ip_budget,
        decreases p.allowed_ips@.len() - j, (if full {
            0int
        } else {
            1int
        }),
    {
        proof {
            assert(p@.allowed_ips[j as int] == p.allowed_ips@[j as int]@);
            assert(allowed_ip_wf(p@.allowed_ips[j as int]));
        }
        let clen = ip_attr_len(&p.allowed_ips[j]);
        if ip_payload.len() + clen > ip_budget {
            proof {
                assert(j != j0);
            }
            full = true;
        } else {
            let c = build_ip_attr(&p.allowed_ips[j]);
            proof {
                lemma_enc_attrs_push(
                    spec_ip_attrs(p@.allowed_ips.subrange(j0 as int, j as int)),
                    c@,
                );
                assert(p@.allowed_ips.subrange(j0 as int, j + 1) =~= p@.allowed_ips.subrange(
                    j0 as int,
                    j as int,
                ).push(p@.allowed_ips[j as int]));
                assert(p@.allowed_ips.subrange(j0 as int, j as int).push(
                    p@.allowed_ips[j as int],
                ).map_values(|ip: AllowedIpV| spec_ip_attr(ip)) =~= spec_ip_attrs(
                    p@.allowed_ips.subrange(j0 as int, j as int),
                ).push(c@));
            }
            encode_attr_onto(&mut ip_payload, &c);
            j = j + 1;
        }
    }
    proof {
        assert(j > j0);
    }
    let ips_len = ip_payload.len();
    let ghost ips_slice = p@.allowed_ips.subrange(j0 as int, j as int);
    let aips = NlAttr { tag: WGPEER_A_ALLOWEDIPS, nested: true, payload: ip_payload };
    let mut frag_payload = fx_bytes;
    proof {
        assert forall|k: int| 0 <= k < ips_slice.len() implies allowed_ip_wf(
            #[trigger] ips_slice[k],
        ) by {
            assert(ips_slice[k] == p@.allowed_ips[j0 + k]);
        }
        lemma_ip_attrs_wf(ips_slice);
        lemma_enc_len_mod4(spec_ip_attrs(ips_slice));
        assert(aips@ == spec_aips_attr(ips_slice));
        assert(attr_wf(aips@));
        lemma_enc_attrs_push(spec_peer_fixed_attrs(p@, cont), aips@);
        assert(spec_peer_fixed_attrs(p@, cont).push(aips@) =~= spec_peer_frag_attrs(
            p@,
            j0 as int,
            j as int,
            cont,
        ));
        lemma_align4_plus4(ips_len as int);
        lemma_enc_attr_is_len(aips@);
    }
    encode_attr_onto(&mut frag_payload, &aips);
    let plen = frag_payload.len();
    let frag = NlAttr { tag: 0, nested: true, payload: frag_payload };
    proof {
        assert(plen == fx_len + 4 + ips_len);
        assert(plen % 4 == 0);
        assert(frag@ == spec_peer_frag_attr(p@, j0 as int, j as int, cont));
        lemma_parse_peer_frag(p@, j0 as int, j as int, cont);
        lemma_align4_plus4(plen as int);
        assert(spec_enc_attr_len(frag@) == 4 + plen);
    }
    (frag, j, 4 + plen)
}

/// Serialize a device mutation into the ordered wire messages that
/// carry it, each within the transport's size ceiling.  Device-level
/// scalars travel only in the first message; every later message opens
/// with the interface identity for correlation and carries only peer
/// data.  A peer whose allowed-address list does not fit is split:
/// continuation fragments carry its public key and the next address
/// slice, never re-asserting the replace-allowed-IPs flag.  Messages
/// must be sent, and acknowledged, in the order returned; a failure
/// mid-sequence leaves the device partially updated.  Feeding the
/// attribute lists back through the aggregator in delivery order
/// rebuilds the device exactly, whenever no two consecutive peers share
/// a public key.
#[verifier::rlimit(100)]
#[verifier::spinoff_prover]
pub fn create_set_device_messages(device: &Device, family_id: u16) -> (r: Result<
    Vec<WgMessage>,
    BuildError,
>)
    ensures
        r is Ok <==> spec_validate_device(device@) is Ok,
        r matches Err(e) ==> spec_validate_device(device@) == Err::<(), BuildError>(e),
        r matches Ok(msgs) ==> {
            &&& msgs@.len() >= 1
            &&& forall|k: int|
                0 <= k < msgs@.len() ==> (#[trigger] msgs@[k]).cmd == WG_CMD_SET_DEVICE
                    && msgs@[k].family_id == family_id && msgs@[k].version == WG_GENL_VERSION
                    && msgs@[k].nl_flags == NLM_F_REQUEST | NLM_F_ACK && spec_enc_attrs(
                    attrs_view(msgs@[k].attrs@),
                ).len() <= MAX_GENL_PAYLOAD_LENGTH
            &&& attrs_view(msgs@[0].attrs@).take(spec_dev_scalar_attrs(device@).len() as int)
                == spec_dev_scalar_attrs(device@)
            &&& forall|k: int|
                1 <= k < msgs@.len() ==> attrs_view((#[trigger] msgs@[k]).attrs@)[0]
                    == spec_iface_attr(device@.interface) && no_scalar_tags(
                    attrs_view(msgs@[k].attrs@),
                )
            &&& peers_adjacent_distinct(device@.peers) ==> spec_merge_seq(
                None,
                msg_attr_views(msgs@),
            ) == Ok::<Option<DeviceV>, DecodeError>(Some(device@))
        },
{
    match validate_device(device) {
        Ok(_) => {},
        Err(e) => {
            return Err(e);
        },
    }
    let ghost dv = device@;
    proof {
        lemma_validate_device_iff(dv);
        assert(device_wf(dv));
    }
    let ghost adj = peers_adjacent_distinct(dv.peers);
    let mut msgs: Vec<WgMessage> = Vec::new();
    let mut i: usize = 0;
    let mut j: usize = 0;
    let mut cont: bool = false;
    let mut first_msg: bool = true;
    proof {
        assert(msg_attr_views(msgs@) =~= Seq::<Seq<AttrV>>::empty());
        assert(spec_merge_seq(None, Seq::<Seq<AttrV>>::empty()) == Ok::<
            Option<DeviceV>,
            DecodeError,
        >(None));
    }
    while first_msg || i < device.peers.len()
        invariant
            dv == device@,
            device_wf(dv),
            adj == peers_adjacent_distinct(dv.peers),
            i <= device.peers@.len(),
            cont ==> i < device.peers@.len() && 0 < j < dv.peers[i as int].allowed_ips.len(),
            !cont ==> j == 0,
            first_msg <==> msgs@.len() == 0,
            first_msg ==> i == 0 && j == 0 && !cont,
            forall|k: int|
                0 <= k < msgs@.len() ==> (#[trigger] msgs@[k]).cmd == WG_CMD_SET_DEVICE
                    && msgs@[k].family_id == family_id && msgs@[k].version == WG_GENL_VERSION
                    && msgs@[k].nl_flags == NLM_F_REQUEST | NLM_F_ACK && spec_enc_attrs(
                    attrs_view(msgs@[k].attrs@),
                ).len() <= MAX_GENL_PAYLOAD_LENGTH,
            msgs@.len() > 0 ==> attrs_view(msgs@[0].attrs@).take(
                spec_dev_scalar_attrs(dv).len() as int,
            ) == spec_dev_scalar_attrs(dv),
            forall|k: int|
                1 <= k < msgs@.len() ==> attrs_view((#[trigger] msgs@[k]).attrs@)[0]
                    == spec_iface_attr(dv.interface) && no_scalar_tags(
                    attrs_view(msgs@[k].attrs@),
                ),
            adj ==> spec_merge_seq(None, msg_attr_views(msgs@)) == Ok::<
                Option<DeviceV>,
                DecodeError,
            >(
                if msgs@.len() == 0 {
                    None
                } else {
                    Some(DeviceV { peers: spec_done_peers(dv, i as int, j as int, cont), ..dv })
                },
            ),
        decreases
            device.peers@.len() - i,
            (if i < device.peers@.len() {
                dv.peers[i as int].allowed_ips.len() - j
            } else {
                0int
            }),
            (if first_msg {
                1int
            } else {
                0int
            }),
    {
        let hdr = build_msg_hdr(device, first_msg);
        let ghost hdr_view = attrs_view(hdr@);
        let ghost acc_h = spec_hdr_acc(dv, first_msg);
        let hdr_bytes = encode_attrs(&hdr);
        let hdr_len = hdr_bytes.len();
        let remaining = MAX_GENL_PAYLOAD_LENGTH - hdr_len - 4;
        let ghost closedp = spec_done_peers(dv, i as int, j as int, cont);
        let ghost entry_i = i;
        let ghost entry_j = j;
        let mut children: Vec<NlAttr> = Vec::new();
        let mut children_len: usize = 0;
        let ghost mut cur_ps: Seq<PeerV> = Seq::<PeerV>::empty();
        let mut msg_full: bool = false;
        proof {
            assert(attrs_view(children@) =~= Seq::<AttrV>::empty());
            lemma_children_ok_empty();
            if adj {
                if msgs@.len() == 0 {
                    assert(cur_ps =~= spec_done_peers(dv, i as int, j as int, cont));
                } else {
                    assert(spec_coalesce(closedp, cur_ps) =~= closedp);
                }
            }
        }
        while i < device.peers.len() && !msg_full
            invariant
                dv == device@,
                device_wf(dv),
                adj == peers_adjacent_distinct(dv.peers),
                first_msg <==> msgs@.len() == 0,
                entry_i <= i <= device.peers@.len(),
                cont ==> i < device.peers@.len() && 0 < j < dv.peers[i as int].allowed_ips.len(),
                !cont ==> j == 0,
                cont && !msg_full ==> children@.len() == 0,
                cont && !msg_full ==> msgs@.len() > 0,
                hdr_len <= 116,
                remaining == MAX_GENL_PAYLOAD_LENGTH - hdr_len - 4,
                i == entry_i ==> j >= entry_j,
                (i == entry_i && j == entry_j) ==> children@.len() == 0,
                msg_full ==> children@.len() > 0,
                children@.len() > 0 ==> i > entry_i || j > entry_j,
                children_ok(attrs_view(children@), cur_ps, children_len as int),
                children_len <= remaining,
                adj ==> (if msgs@.len() == 0 {
                    cur_ps
                } else {
                    spec_coalesce(closedp, cur_ps)
                }) == spec_done_peers(dv, i as int, j as int, cont),
            decreases
                device.peers@.len() - i,
                dv.peers[i as int].allowed_ips.len() - j,
                (if msg_full {
                    0int
                } else {
                    1int
                }),
        {
            let p = &device.peers[i];
            proof {
                assert(dv.peers[i as int] == device.peers@[i as int]@);
                assert(peer_wf(dv.peers[i as int]));
            }
            let fx_len = peer_fixed_len(p, cont);
            if p.allowed_ips.len() == 0 {
                proof {
                    assert(!cont);
                }
                if children_len + 4 + fx_len > remaining {
                    proof {
                        lemma_children_ok_facts(attrs_view(children@), cur_ps, children_len as int);
                        if children@.len() == 0 {
                            assert(false);
                        }
                    }
                    msg_full = true;
                } else {
                    let (frag, flen) = build_empty_peer_frag(p);
                    proof {
                        let q = dv.peers[i as int];
                        assert(q.allowed_ips.subrange(0, 0) =~= q.allowed_ips);
                        assert(spec_frag_peer(q, 0, 0, false) =~= q);
                        lemma_children_ok_facts(
                            attrs_view(children@),
                            cur_ps,
                            children_len as int,
                        );
                        assert(attrs_view(children@.push(frag)) =~= attrs_view(children@).push(
                            frag@,
                        ));
                        lemma_children_ok_push(
                            attrs_view(children@),
                            cur_ps,
                            children_len as int,
                            frag@,
                            q,
                        );
                        if adj {
                            lemma_track_push(
                                dv,
                                closedp,
                                cur_ps,
                                msgs@.len() == 0,
                                i as int,
                                0,
                                false,
                                0,
                                q,
                            );
                        }
                        cur_ps = cur_ps.push(q);
                    }
                    children.push(frag);
                    children_len = children_len + flen;
                    i = i + 1;
                    j = 0;
                    cont = false;
                }
            } else {
                proof {
                    assert(p@.allowed_ips[j as int] == p.allowed_ips@[j as int]@);
                    assert(allowed_ip_wf(p@.allowed_ips[j as int]));
                }
                let iplen = ip_attr_len(&p.allowed_ips[j]);
                if children_len + 4 + fx_len + 4 + iplen > remaining {
                    proof {
                        lemma_children_ok_facts(attrs_view(children@), cur_ps, children_len as int);
                        if children@.len() == 0 {
                            assert(false);
                        }
                    }
                    msg_full = true;
                } else {
                    let budget = remaining - children_len;
                    let (frag, j1, flen) = build_peer_frag(p, j, budget, cont);
                    let ghost q = spec_frag_peer(dv.peers[i as int], j as int, j1 as int, cont);
                    proof {
                        lemma_children_ok_facts(
                            attrs_view(children@),
                            cur_ps,
                            children_len as int,
                        );
                        assert(attrs_view(children@.push(frag)) =~= attrs_view(children@).push(
                            frag@,
                        ));
                        lemma_children_ok_push(
                            attrs_view(children@),
                            cur_ps,
                            children_len as int,
                            frag@,
                            q,
                        );
                        if adj {
                            lemma_track_push(
                                dv,
                                closedp,
                                cur_ps,
                                msgs@.len() == 0,
                                i as int,
                                j as int,
                                cont,
                                j1 as int,
                                q,
                            );
                        }
                        cur_ps = cur_ps.push(q);
                    }
                    children.push(frag);
                    children_len = children_len + flen;
                    if j1 < p.allowed_ips.len() {
                        j = j1;
                        cont = true;
                        msg_full = true;
                    } else {
                        i = i + 1;
                        j = 0;
                        cont = false;
                    }
                }
            }
        }
        // close this message
        let mut attrs = hdr;
        let ghost children_view = attrs_view(children@);
        proof {
            lemma_children_ok_facts(children_view, cur_ps, children_len as int);
            lemma_enc_len_mod4(children_view);
        }
        if children.len() > 0 {
            let payload = encode_attrs(&children);
            let pa = NlAttr { tag: WGDEVICE_A_PEERS, nested: true, payload };
            proof {
                assert(attrs_view(attrs@.push(pa)) =~= hdr_view.push(pa@));
                assert(hdr_view.push(pa@) =~= spec_msg_attrs(hdr_view, children_view));
            }
            attrs.push(pa);
        } else {
            proof {
                assert(spec_msg_attrs(hdr_view, children_view) =~= hdr_view);
            }
        }
        let m = WgMessage {
            family_id,
            cmd: WG_CMD_SET_DEVICE,
            version: WG_GENL_VERSION,
            nl_flags: NLM_F_REQUEST | NLM_F_ACK,
            attrs,
        };
        proof {
            assert(attrs_view(m.attrs@) == spec_msg_attrs(hdr_view, children_view));
            lemma_msg_size(hdr_view, children_view);
            if children_view.len() > 0 {
                lemma_align4_plus4(children_len as int);
            }
            assert(spec_enc_attrs(attrs_view(m.attrs@)).len() <= MAX_GENL_PAYLOAD_LENGTH);
            if first_msg {
                assert(attrs_view(m.attrs@).take(spec_dev_scalar_attrs(dv).len() as int)
                    =~= spec_dev_scalar_attrs(dv)) by {
                    assert(hdr_view == spec_dev_scalar_attrs(dv));
                }
            } else {
                lemma_msg_no_scalars(hdr_view, children_view);
                assert(attrs_view(m.attrs@)[0] == spec_iface_attr(dv.interface)) by {
                    assert(hdr_view[0] == spec_iface_attr(dv.interface));
                }
            }
            let newmsgs = msgs@.push(m);
            assert forall|k: int|
                0 <= k < newmsgs.len() implies (#[trigger] newmsgs[k]).cmd == WG_CMD_SET_DEVICE
                && newmsgs[k].family_id == family_id && newmsgs[k].version == WG_GENL_VERSION
                && newmsgs[k].nl_flags == NLM_F_REQUEST | NLM_F_ACK && spec_enc_attrs(
                attrs_view(newmsgs[k].attrs@),
            ).len() <= MAX_GENL_PAYLOAD_LENGTH by {
                if k < msgs@.len() {
                    assert(newmsgs[k] == msgs@[k]);
                } else {
                    assert(newmsgs[k] == m);
                }
            }
            assert forall|k: int|
                1 <= k < newmsgs.len() implies attrs_view((#[trigger] newmsgs[k]).attrs@)[0]
                == spec_iface_attr(dv.interface) && no_scalar_tags(
                attrs_view(newmsgs[k].attrs@),
            ) by {
                if k < msgs@.len() {
                    assert(newmsgs[k] == msgs@[k]);
                } else {
                    assert(newmsgs[k] == m);
                    assert(k == msgs@.len() && k >= 1);
                    assert(!first_msg);
                }
            }
            assert(newmsgs[0] == (if msgs@.len() == 0 {
                m
            } else {
                msgs@[0]
            }));
            if adj {
                let prev: Option<DeviceV> = if msgs@.len() == 0 {
                    None
                } else {
                    Some(DeviceV { peers: closedp, ..dv })
                };
                let base = DeviceV { peers: Seq::<PeerV>::empty(), ..dv };
                lemma_merge_msg(prev, hdr_view, acc_h, children_view, cur_ps, base);
                lemma_merge_seq_push(None, msg_attr_views(msgs@), attrs_view(m.attrs@));
                assert(msg_attr_views(newmsgs) =~= msg_attr_views(msgs@).push(
                    attrs_view(m.attrs@),
                ));
                let newdev = if msgs@.len() == 0 {
                    DeviceV { peers: cur_ps, ..base }
                } else {
                    DeviceV { peers: spec_coalesce(closedp, cur_ps), ..dv }
                };
                assert(crate::get::spec_merge(prev, attrs_view(m.attrs@)) == Ok::<
                    DeviceV,
                    DecodeError,
                >(newdev));
                assert(newdev =~= DeviceV {
                    peers: spec_done_peers(dv, i as int, j as int, cont),
                    ..dv
                });
                assert(spec_merge_seq(None, msg_attr_views(newmsgs)) == Ok::<
                    Option<DeviceV>,
                    DecodeError,
                >(Some(DeviceV { peers: spec_done_peers(dv, i as int, j as int, cont), ..dv })));
            }
        }
        msgs.push(m);
        first_msg = false;
    }
    proof {
        if adj {
            assert(spec_done_peers(dv, i as int, 0, false) =~= dv.peers);
            assert(DeviceV { peers: spec_done_peers(dv, i as int, 0, false), ..dv } =~= dv);
        }
    }
    Ok(msgs)
}

} // verus!


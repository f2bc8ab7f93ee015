//! The interface-lifecycle (link) protocol: building the create, delete
//! and enumerate messages, and reading an enumerate response back.
//!
//! A virtual interface of this driver is recognized by its link-info
//! kind, a fixed type-name string nested under the link-info attribute.

use vstd::prelude::*;

use crate::attr::{
    IFLA_IFNAME, IFLA_INFO_KIND, IFLA_LINKINFO, NLM_F_ACK, NLM_F_CREATE, NLM_F_DUMP, NLM_F_EXCL,
    NLM_F_REQUEST, RTM_DELLINK, RTM_GETLINK, RTM_NEWLINK, WG_GENL_NAME,
};
use crate::codec::{
    attr_wf, attrs_view, attrs_wf, bytes_copy, decode_attrs, encode_attrs, lookup, spec_dec_attrs,
    spec_enc_attrs, spec_lookup, AttrV, NlAttr,
};
use crate::err::BuildError;
use crate::get::{spec_strip_nul, strip_nul};
use crate::interface::{str_bytes, string_from_utf8, IFNAMSIZ};

verus! {

/// Creating or removing a virtual interface.
pub enum WireGuardDeviceLinkOperation {
    Add,
    Delete,
}

/// One message of the interface-lifecycle protocol: its type, its header
/// flags, and its attribute list.  The fixed interface-info part of the
/// payload is all zeros and is supplied by the transport layer.
pub struct LinkMessage {
    pub nl_type: u16,
    pub nl_flags: u16,
    pub attrs: Vec<NlAttr>,
}

/// The bytes of the driver's link-info kind string.
pub open spec fn wg_kind_bytes() -> Seq<u8> {
    str_bytes("wireguard"@)
}

/// The attribute list of a create or delete message: the interface name
/// and the nested link-info kind.
pub open spec fn spec_link_attrs(name_bytes: Seq<u8>) -> Seq<AttrV> {
    seq![
        AttrV { tag: IFLA_IFNAME, nested: false, payload: name_bytes + seq![0u8] },
        AttrV {
            tag: IFLA_LINKINFO,
            nested: true,
            payload: spec_enc_attrs(
                seq![
                    AttrV { tag: IFLA_INFO_KIND, nested: false, payload: wg_kind_bytes() + seq![0u8] },
                ],
            ),
        },
    ]
}

/// Build the create or delete message for a named interface.  The name
/// must be strictly between 0 and `IFNAMSIZ` bytes, else the operation
/// fails before any I/O.
pub fn link_message(ifname: &str, link_operation: WireGuardDeviceLinkOperation) -> (r: Result<
    LinkMessage,
    BuildError,
>)
    ensures
        match r {
            Ok(m) => {
                &&& 0 < str_bytes(ifname@).len() < IFNAMSIZ
                &&& attrs_view(m.attrs@) == spec_link_attrs(str_bytes(ifname@))
                &&& m.nl_type == (match link_operation {
                    WireGuardDeviceLinkOperation::Add => RTM_NEWLINK,
                    WireGuardDeviceLinkOperation::Delete => RTM_DELLINK,
                })
                &&& m.nl_flags == (match link_operation {
                    WireGuardDeviceLinkOperation::Add => NLM_F_REQUEST | NLM_F_ACK | NLM_F_CREATE
                        | NLM_F_EXCL,
                    WireGuardDeviceLinkOperation::Delete => NLM_F_REQUEST | NLM_F_ACK,
                })
            },
            Err(e) => !(0 < str_bytes(ifname@).len() < IFNAMSIZ) && e
                == BuildError::InvalidInterfaceName,
        },
{
    let nb = ifname.as_bytes();
    if nb.len() == 0 || nb.len() >= crate::sys::ifnamsiz() {
        return Err(BuildError::InvalidInterfaceName);
    }
    let mut name_payload = vstd::slice::slice_to_vec(nb);
    name_payload.push(0u8);
    proof {
        assert(name_payload@ =~= str_bytes(ifname@) + seq![0u8]);
    }
    let kind_str = WG_GENL_NAME;
    let mut kind_payload = vstd::slice::slice_to_vec(kind_str.as_bytes());
    kind_payload.push(0u8);
    proof {
        assert(kind_str@ == "wireguard"@);
        assert(kind_payload@ =~= wg_kind_bytes() + seq![0u8]);
    }
    let mut kind_attrs: Vec<NlAttr> = Vec::new();
    kind_attrs.push(NlAttr { tag: IFLA_INFO_KIND, nested: false, payload: kind_payload });
    proof {
        assert(attrs_view(kind_attrs@) =~= seq![
            AttrV { tag: IFLA_INFO_KIND, nested: false, payload: wg_kind_bytes() + seq![0u8] },
        ]);
        assert(wg_kind_bytes().len() <= 40) by {
            reveal_strlit("wireguard");
            assert(vstd::utf8::is_ascii_chars("wireguard"@));
            vstd::utf8::is_ascii_chars_encode_utf8("wireguard"@);
        }
        assert(attrs_wf(attrs_view(kind_attrs@)));
        crate::codec::lemma_enc_attrs_prefix_len(attrs_view(kind_attrs@), 0);
        crate::codec::lemma_enc_attrs_push(Seq::<AttrV>::empty(), attrs_view(kind_attrs@)[0]);
        assert(Seq::<AttrV>::empty().push(attrs_view(kind_attrs@)[0]) =~= attrs_view(
            kind_attrs@,
        ));
    }
    let link_payload = encode_attrs(&kind_attrs);
    let mut attrs: Vec<NlAttr> = Vec::new();
    attrs.push(NlAttr { tag: IFLA_IFNAME, nested: false, payload: name_payload });
    attrs.push(NlAttr { tag: IFLA_LINKINFO, nested: true, payload: link_payload });
    proof {
        assert(attrs_view(attrs@) =~= spec_link_attrs(str_bytes(ifname@)));
    }
    let nl_type = match link_operation {
        WireGuardDeviceLinkOperation::Add => RTM_NEWLINK,
        WireGuardDeviceLinkOperation::Delete => RTM_DELLINK,
    };
    let nl_flags = match link_operation {
        WireGuardDeviceLinkOperation::Add => NLM_F_REQUEST | NLM_F_ACK | NLM_F_CREATE
            | NLM_F_EXCL,
        WireGuardDeviceLinkOperation::Delete => NLM_F_REQUEST | NLM_F_ACK,
    };
    Ok(LinkMessage { nl_type, nl_flags, attrs })
}

/// Build the dump request that enumerates every interface link.
pub fn get_list_device_names_msg() -> (r: LinkMessage)
    ensures
        r.nl_type == RTM_GETLINK,
        r.nl_flags == NLM_F_REQUEST | NLM_F_ACK | NLM_F_DUMP,
        r.attrs@.len() == 0,
{
    LinkMessage { nl_type: RTM_GETLINK, nl_flags: NLM_F_REQUEST | NLM_F_ACK | NLM_F_DUMP, attrs: Vec::new() }
}

/// One record of an enumerate response: the interface's name, where one
/// was readable, and whether its link-info kind marks it as one of this
/// driver's interfaces.
pub struct PotentialWireGuardDeviceName {
    pub ifname: Option<String>,
    pub is_wireguard: bool,
}

/// The name a response's name attribute holds: present when the
/// attribute is there and its payload, terminator stripped, is valid
/// text.
pub open spec fn spec_response_name(attrs: Seq<AttrV>) -> Option<Seq<u8>> {
    match spec_lookup(attrs, IFLA_IFNAME) {
        Some(p) => if vstd::utf8::valid_utf8(spec_strip_nul(p)) {
            Some(spec_strip_nul(p))
        } else {
            None
        },
        None => None,
    }
}

/// Whether a response's link-info carries this driver's kind string.
pub open spec fn spec_response_is_wireguard(attrs: Seq<AttrV>) -> bool {
    match spec_lookup(attrs, IFLA_LINKINFO) {
        Some(p) => match spec_dec_attrs(p) {
            Ok(children) => match spec_lookup(children, IFLA_INFO_KIND) {
                Some(kp) => spec_strip_nul(kp) == wg_kind_bytes(),
                None => false,
            },
            Err(_) => false,
        },
        None => false,
    }
}

/// Read one enumerate-response record: a name, when one is readable, and
/// the kind check.  A record whose link-info is absent or malformed is
/// simply not one of ours; only genuinely unreadable outer structure is
/// rejected by the decoder before this point.
pub fn parse_link_response(attrs: &Vec<NlAttr>) -> (r: PotentialWireGuardDeviceName)
    ensures
        match r.ifname {
            Some(n) => spec_response_name(attrs_view(attrs@)) == Some(str_bytes(n@)),
            None => spec_response_name(attrs_view(attrs@)) is None,
        },
        r.is_wireguard == spec_response_is_wireguard(attrs_view(attrs@)),
{
    let ifname: Option<String> = match lookup(attrs, IFLA_IFNAME) {
        Some(p) => {
            let stripped = strip_nul(p);
            string_from_utf8(stripped)
        },
        None => None,
    };
    let is_wireguard: bool = match lookup(attrs, IFLA_LINKINFO) {
        Some(p) => {
            match decode_attrs(p) {
                Ok(children) => {
                    match lookup(&children, IFLA_INFO_KIND) {
                        Some(kp) => {
                            let stripped = strip_nul(kp);
                            let kind = WG_GENL_NAME;
                            let kb = vstd::slice::slice_to_vec(kind.as_bytes());
                            proof {
                                assert(kind@ == "wireguard"@);
                                assert(kb@ == wg_kind_bytes());
                            }
                            crate::codec::bytes_eq(&stripped, &kb)
                        },
                        None => false,
                    }
                },
                Err(_) => false,
            }
        },
        None => false,
    };
    PotentialWireGuardDeviceName { ifname, is_wireguard }
}

/// The names that an enumerate pass keeps: those records whose kind
/// matched and whose name was readable, in response order.
pub open spec fn spec_kept_names(rs: Seq<(Option<Seq<char>>, bool)>) -> Seq<Seq<char>>
    decreases rs.len(),
{
    if rs.len() == 0 {
        Seq::empty()
    } else {
        let rest = spec_kept_names(rs.drop_first());
        match rs[0].0 {
            Some(n) => if rs[0].1 {
                seq![n] + rest
            } else {
                rest
            },
            None => rest,
        }
    }
}

/// View of one parsed record: its name's characters and the kind check.
pub open spec fn response_view(r: PotentialWireGuardDeviceName) -> (Option<Seq<char>>, bool) {
    (
        match r.ifname {
            Some(n) => Some(n@),
            None => None,
        },
        r.is_wireguard,
    )
}

pub open spec fn responses_view(rs: Seq<PotentialWireGuardDeviceName>) -> Seq<
    (Option<Seq<char>>, bool),
> {
    rs.map_values(|r: PotentialWireGuardDeviceName| response_view(r))
}

/// Keep the names of this driver's interfaces, in response order: the
/// enumerate filter.
pub fn filter_wireguard_names(parsed: &Vec<PotentialWireGuardDeviceName>) -> (r: Vec<String>)
    ensures
        r@.map_values(|s: String| s@) == spec_kept_names(responses_view(parsed@)),
    decreases parsed@.len(),
{
    let ghost full = responses_view(parsed@);
    let mut out: Vec<String> = Vec::new();
    let mut i: usize = 0;
    proof {
        assert(full.skip(0) =~= full);
    }
    while i < parsed.len()
        invariant
            i <= parsed@.len(),
            full == responses_view(parsed@),
            out@.map_values(|s: String| s@) + spec_kept_names(full.skip(i as int))
                == spec_kept_names(full),
        decreases parsed@.len() - i,
    {
        proof {
            assert(full.skip(i as int)[0] == full[i as int]);
            assert(full[i as int] == response_view(parsed@[i as int]));
            assert(full.skip(i as int).drop_first() =~= full.skip(i + 1));
        }
        let keep = parsed[i].is_wireguard;
        match &parsed[i].ifname {
            Some(n) => {
                if keep {
                    let ghost prev = out@.map_values(|s: String| s@);
                    out.push(n.clone());
                    proof {
                        assert(out@.map_values(|s: String| s@) =~= prev.push(n@));
                        assert(prev + (seq![n@] + spec_kept_names(full.skip(i + 1))) =~= prev.push(
                            n@,
                        ) + spec_kept_names(full.skip(i + 1)));
                    }
                }
            },
            None => {},
        }
        i = i + 1;
    }
    proof {
        assert(full.skip(full.len() as int) =~= Seq::<(Option<Seq<char>>, bool)>::empty());
        assert(out@.map_values(|s: String| s@) + Seq::<Seq<char>>::empty() =~= out@.map_values(
            |s: String| s@,
        ));
    }
    out
}

} // verus!

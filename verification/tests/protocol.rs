use wireguard_uapi::codec::{decode_attrs, encode_attrs, lookup, read_u16, NlAttr};
use wireguard_uapi::device::{AllowedIp, Device, IpAddr, Peer, PeerFlags};
use wireguard_uapi::err::{GetDeviceError, IterMcastEventsError};
use wireguard_uapi::event::{parse_monitor_event, MonitorEvent};
use wireguard_uapi::get::{
    build_get_device_request, get_device_dump_step, merge, parse_allowed_ip, DumpMsg, DumpStep,
};
use wireguard_uapi::interface::DeviceInterface;
use wireguard_uapi::link::{
    filter_wireguard_names, get_list_device_names_msg, link_message, parse_link_response,
    PotentialWireGuardDeviceName, WireGuardDeviceLinkOperation,
};
use wireguard_uapi::set::{
    build_dev_scalars, build_ip_attr, build_peer_fixed, create_set_device_messages,
    validate_device, MAX_GENL_PAYLOAD_LENGTH,
};

fn key(b: u8) -> Vec<u8> {
    vec![b; 32]
}

fn device_one_peer() -> Device {
    Device {
        interface: DeviceInterface::from_name(String::from("wgtest0")),
        private_key: None,
        public_key: None,
        listen_port: Some(51820),
        fwmark: None,
        peers: vec![Peer {
            public_key: key(7),
            preshared_key: None,
            endpoint: None,
            persistent_keepalive_interval: None,
            allowed_ips: vec![AllowedIp {
                ipaddr: IpAddr::V4(vec![10, 0, 0, 2]),
                cidr_mask: Some(32),
            }],
            flags: PeerFlags { remove_me: false, replace_allowed_ips: false, update_only: false },
        }],
        replace_peers: true,
    }
}

#[test]
fn codec_round_trip() {
    let attrs = vec![
        NlAttr { tag: 6, nested: false, payload: vec![0x6c, 0xca] },
        NlAttr { tag: 2, nested: false, payload: vec![b'w', b'g', 0] },
        NlAttr { tag: 8, nested: true, payload: vec![] },
    ];
    let bytes = encode_attrs(&attrs);
    assert_eq!(bytes.len(), 8 + 8 + 4);
    let back = decode_attrs(&bytes).unwrap();
    assert_eq!(back.len(), 3);
    assert_eq!(back[0].tag, 6);
    assert!(!back[0].nested);
    assert_eq!(back[0].payload, vec![0x6c, 0xca]);
    assert_eq!(back[1].payload, vec![b'w', b'g', 0]);
    assert!(back[2].nested);
    assert_eq!(read_u16(&back[0].payload).unwrap(), 0xca6c);
}

#[test]
fn decode_rejects_truncated() {
    let bytes = vec![8, 0, 1];
    assert!(decode_attrs(&bytes).is_err());
    let bad_len = vec![2, 0, 1, 0];
    assert!(decode_attrs(&bad_len).is_err());
}

#[test]
fn unknown_tags_are_preserved() {
    let attrs = vec![NlAttr { tag: 0x3f00, nested: false, payload: vec![1, 2, 3] }];
    let bytes = encode_attrs(&attrs);
    let back = decode_attrs(&bytes).unwrap();
    assert_eq!(back[0].tag, 0x3f00);
    assert_eq!(back[0].payload, vec![1, 2, 3]);
}

#[test]
fn default_prefix_lengths() {
    let v4 = AllowedIp::from_ipaddr(IpAddr::V4(vec![10, 0, 0, 2]));
    let a4 = build_ip_attr(&v4);
    let inner = decode_attrs(&a4.payload).unwrap();
    let cidr = lookup(&inner, 3).unwrap();
    assert_eq!(cidr, &vec![32u8]);
    let v6 = AllowedIp::from_ipaddr(IpAddr::V6(vec![0; 16]));
    let a6 = build_ip_attr(&v6);
    let inner6 = decode_attrs(&a6.payload).unwrap();
    assert_eq!(lookup(&inner6, 3).unwrap(), &vec![128u8]);
    let parsed = parse_allowed_ip(&inner).unwrap();
    assert_eq!(parsed.cidr_mask, Some(32));
    assert_eq!(parsed.ipaddr, IpAddr::V4(vec![10, 0, 0, 2]));
}

#[test]
fn peer_round_trip_through_merge() {
    let dev = device_one_peer();
    let mut attrs = build_dev_scalars(&dev);
    let fixed = build_peer_fixed(&dev.peers[0], false);
    let mut peer_payload = encode_attrs(&fixed);
    let ip_attr = build_ip_attr(&dev.peers[0].allowed_ips[0]);
    let ips_payload = encode_attrs(&vec![ip_attr]);
    let fp = peer_payload.split_off(peer_payload.len());
    assert!(fp.is_empty());
    drop(fp);
    let aips = NlAttr { tag: 9, nested: true, payload: ips_payload };
    let mut frag_payload = peer_payload;
    let enc_aips = encode_attrs(&vec![aips]);
    frag_payload.extend_from_slice(&enc_aips);
    let peers_payload = encode_attrs(&vec![NlAttr { tag: 0, nested: true, payload: frag_payload }]);
    attrs.push(NlAttr { tag: 8, nested: true, payload: peers_payload });
    let got = merge(None, &attrs).unwrap();
    assert_eq!(got.listen_port, Some(51820));
    assert!(got.replace_peers);
    assert_eq!(got.peers.len(), 1);
    assert_eq!(got.peers[0].public_key, key(7));
    assert_eq!(
        got.peers[0].allowed_ips,
        vec![AllowedIp { ipaddr: IpAddr::V4(vec![10, 0, 0, 2]), cidr_mask: Some(32) }]
    );
    assert_eq!(got.interface, DeviceInterface::Name(String::from("wgtest0")));
}

#[test]
fn merge_same_sequence_twice_is_identical() {
    let dev = device_one_peer();
    let mut attrs = build_dev_scalars(&dev);
    attrs.push(NlAttr { tag: 8, nested: true, payload: vec![] });
    let a = merge(None, &attrs).unwrap();
    let b = merge(None, &attrs).unwrap();
    assert_eq!(a, b);
}

#[test]
fn validate_rejects_bad_key() {
    let mut dev = device_one_peer();
    dev.peers[0].public_key = vec![1, 2, 3];
    assert!(validate_device(&dev).is_err());
    assert!(validate_device(&device_one_peer()).is_ok());
}

#[test]
fn unexpected_command_yields_typed_error_and_decoder_survives() {
    let attrs: Vec<NlAttr> = Vec::new();
    match parse_monitor_event(99, &attrs) {
        Err(IterMcastEventsError::UnexpectedCommandError { cmd }) => assert_eq!(cmd, 99),
        _ => panic!("expected the unexpected-command error"),
    }
    match parse_monitor_event(77, &attrs) {
        Err(IterMcastEventsError::UnexpectedCommandError { cmd }) => assert_eq!(cmd, 77),
        _ => panic!("expected the unexpected-command error"),
    }
}

#[test]
fn enumerate_filters_by_kind() {
    let eth0 = {
        let mut a = vec![NlAttr { tag: 3, nested: false, payload: b"eth0\0".to_vec() }];
        a.push(NlAttr { tag: 18, nested: true, payload: vec![] });
        a
    };
    let wg = {
        let kind = encode_attrs(&vec![NlAttr {
            tag: 1,
            nested: false,
            payload: b"wireguard\0".to_vec(),
        }]);
        vec![
            NlAttr { tag: 3, nested: false, payload: b"wgtest0\0".to_vec() },
            NlAttr { tag: 18, nested: true, payload: kind },
        ]
    };
    let parsed: Vec<PotentialWireGuardDeviceName> =
        vec![parse_link_response(&eth0), parse_link_response(&wg)];
    assert!(!parsed[0].is_wireguard);
    assert!(parsed[1].is_wireguard);
    let names = filter_wireguard_names(&parsed);
    assert_eq!(names, vec![String::from("wgtest0")]);
}

#[test]
fn link_messages_carry_name_and_kind() {
    let m = link_message("wgtest0", WireGuardDeviceLinkOperation::Add).unwrap();
    assert_eq!(m.nl_type, 16);
    assert_eq!(m.attrs[0].payload, b"wgtest0\0".to_vec());
    let d = link_message("wgtest0", WireGuardDeviceLinkOperation::Delete).unwrap();
    assert_eq!(d.nl_type, 17);
    assert!(link_message("", WireGuardDeviceLinkOperation::Add).is_err());
    let e = get_list_device_names_msg();
    assert_eq!(e.nl_type, 18);
    assert!(e.attrs.is_empty());
}

fn merge_all(msgs: &[wireguard_uapi::set::WgMessage]) -> Device {
    let mut acc: Option<Device> = None;
    for m in msgs {
        acc = Some(merge(acc, &m.attrs).unwrap());
    }
    acc.unwrap()
}

#[test]
fn fragment_then_merge_round_trips() {
    let dev = device_one_peer();
    let msgs = create_set_device_messages(&dev, 0x1c).unwrap();
    assert_eq!(msgs.len(), 1);
    assert_eq!(msgs[0].family_id, 0x1c);
    assert_eq!(msgs[0].cmd, 1);
    let got = merge_all(&msgs);
    assert_eq!(got, dev);
}

#[test]
fn fragment_round_trips_a_larger_device() {
    let mut peers = Vec::new();
    for pk in 0..7u8 {
        let mut ips = Vec::new();
        for x in 0..40u8 {
            ips.push(AllowedIp { ipaddr: IpAddr::V4(vec![10, 0, pk, x]), cidr_mask: Some(24) });
        }
        peers.push(Peer {
            public_key: key(pk + 1),
            preshared_key: if pk % 2 == 0 { Some(key(99)) } else { None },
            endpoint: None,
            persistent_keepalive_interval: Some(u16::from(pk)),
            allowed_ips: ips,
            flags: PeerFlags { remove_me: false, replace_allowed_ips: true, update_only: false },
        });
    }
    let dev = Device {
        interface: DeviceInterface::from_name(String::from("wgtest0")),
        private_key: Some(key(41)),
        public_key: None,
        listen_port: Some(51820),
        fwmark: Some(7),
        peers,
        replace_peers: true,
    };
    let msgs = create_set_device_messages(&dev, 0x1c).unwrap();
    assert!(msgs.len() >= 2);
    let got = merge_all(&msgs);
    assert_eq!(got, dev);
}

#[test]
fn fragments_stay_under_the_ceiling_and_scalars_stay_first() {
    let mut ips = Vec::new();
    for hi in 0..2u8 {
        for x in 0..128u8 {
            ips.push(AllowedIp { ipaddr: IpAddr::V4(vec![10, hi, x, 0]), cidr_mask: Some(32) });
        }
    }
    let dev = Device {
        interface: DeviceInterface::from_name(String::from("wgtest0")),
        private_key: Some(key(41)),
        public_key: None,
        listen_port: None,
        fwmark: None,
        peers: vec![Peer {
            public_key: key(5),
            preshared_key: None,
            endpoint: None,
            persistent_keepalive_interval: None,
            allowed_ips: ips,
            flags: PeerFlags { remove_me: false, replace_allowed_ips: true, update_only: false },
        }],
        replace_peers: false,
    };
    // 256 entries at 28 encoded bytes each cannot fit one message
    let msgs = create_set_device_messages(&dev, 0x1c).unwrap();
    assert!(msgs.len() >= 2);
    for (k, m) in msgs.iter().enumerate() {
        let bytes = encode_attrs(&m.attrs);
        assert!(bytes.len() <= MAX_GENL_PAYLOAD_LENGTH);
        for a in &m.attrs {
            // device-level scalars only in the first message
            if k > 0 {
                assert!(a.tag != 3 && a.tag != 4 && a.tag != 5 && a.tag != 6 && a.tag != 7);
            }
        }
    }
    let got = merge_all(&msgs);
    assert_eq!(got, dev);
}

#[test]
fn split_peer_continues_without_replace_flag() {
    let mut ips = Vec::new();
    for hi in 0..2u8 {
        for x in 0..128u8 {
            ips.push(AllowedIp { ipaddr: IpAddr::V4(vec![10, hi, x, 1]), cidr_mask: Some(32) });
        }
    }
    let dev = Device {
        interface: DeviceInterface::from_name(String::from("wgtest0")),
        private_key: None,
        public_key: None,
        listen_port: None,
        fwmark: None,
        peers: vec![Peer {
            public_key: key(9),
            preshared_key: None,
            endpoint: None,
            persistent_keepalive_interval: None,
            allowed_ips: ips,
            flags: PeerFlags { remove_me: false, replace_allowed_ips: true, update_only: false },
        }],
        replace_peers: false,
    };
    let msgs = create_set_device_messages(&dev, 0x1c).unwrap();
    assert!(msgs.len() >= 2);
    // the first fragment of the peer asserts the replace flag
    let first_peers = msgs[0].attrs.iter().find(|a| a.tag == 8).unwrap();
    let first_children = decode_attrs(&first_peers.payload).unwrap();
    let first_frag = decode_attrs(&first_children[0].payload).unwrap();
    assert!(first_frag.iter().any(|a| a.tag == 3));
    assert!(first_frag.iter().any(|a| a.tag == 1 && a.payload == key(9)));
    // every continuation carries the key and never the flags attribute
    for m in &msgs[1..] {
        let peers_attr = m.attrs.iter().find(|a| a.tag == 8).unwrap();
        let children = decode_attrs(&peers_attr.payload).unwrap();
        let frag = decode_attrs(&children[0].payload).unwrap();
        assert!(frag.iter().any(|a| a.tag == 1 && a.payload == key(9)));
        assert!(frag.iter().all(|a| a.tag != 3));
    }
    let got = merge_all(&msgs);
    assert_eq!(got, dev);
}

#[test]
fn get_request_carries_the_identity() {
    let m = build_get_device_request(&DeviceInterface::from_name(String::from("wgtest0")), 0x1c)
        .unwrap();
    assert_eq!(m.cmd, 0);
    assert_eq!(m.family_id, 0x1c);
    assert_eq!(m.attrs.len(), 1);
    assert_eq!(m.attrs[0].tag, 2);
    assert_eq!(m.attrs[0].payload, b"wgtest0\0".to_vec());
    assert!(build_get_device_request(&DeviceInterface::from_name(String::new()), 0x1c).is_err());
}

#[test]
fn dump_step_decides_like_the_spec() {
    // an error marker aborts
    match get_device_dump_step(None, DumpMsg::Error) {
        DumpStep::Failed(GetDeviceError::AccessError) => {},
        _ => panic!("expected the access error"),
    }
    // done without any device-level fields fails
    match get_device_dump_step(None, DumpMsg::Done) {
        DumpStep::Failed(GetDeviceError::AccessError) => {},
        _ => panic!("expected the access error"),
    }
    // a silent end of stream is fatal, not a quiet success
    match get_device_dump_step(Some(device_one_peer()), DumpMsg::Ended) {
        DumpStep::Failed(GetDeviceError::AccessError) => {},
        _ => panic!("expected the access error"),
    }
    // a data message merges, and done then hands the device back
    let dev = device_one_peer();
    let msgs = create_set_device_messages(&dev, 0x1c).unwrap();
    let mut acc: Option<Device> = None;
    for m in &msgs {
        match get_device_dump_step(acc.take(), DumpMsg::Payload(m.attrs.clone())) {
            DumpStep::Continue(a) => acc = a,
            _ => panic!("expected to continue"),
        }
    }
    match get_device_dump_step(acc, DumpMsg::Done) {
        DumpStep::Finished(d) => assert_eq!(d, dev),
        _ => panic!("expected the finished device"),
    }
}

#[test]
fn from_ipaddr_stores_no_mask() {
    let a = AllowedIp::from_ipaddr(IpAddr::V4(vec![10, 0, 0, 2]));
    assert_eq!(a.cidr_mask, None);
    assert_eq!(a.ipaddr, IpAddr::V4(vec![10, 0, 0, 2]));
}

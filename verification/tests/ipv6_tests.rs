use merlion_kernel::ipv6::{
    add_route, build_echo_request, build_header, build_neighbor_solicit, init, ipv6_info, ipv6_stats,
    lookup_route, ndp_add, ndp_lookup, ndp_table, our_ipv6, parse_header, parse_hex_u16, parse_icmpv6, ping6,
    remove_route, routing_table, send_ipv6, IcmpV6Message, Ipv6Addr, Ipv6State, ICMPV6_ECHO_REQUEST,
};

fn addr(s: &str) -> Ipv6Addr {
    Ipv6Addr::from_str(s).unwrap()
}

#[test]
fn segments_round_trip() {
    let segs = [0x2001, 0xdb8, 0, 0, 0, 0xff00, 0x42, 0x8329];
    assert_eq!(Ipv6Addr::from_segments(segs).segments(), segs);
    assert_eq!(Ipv6Addr::loopback().segments(), [0, 0, 0, 0, 0, 0, 0, 1]);
}

#[test]
fn predicates() {
    assert!(Ipv6Addr::loopback().is_loopback());
    assert!(Ipv6Addr::unspecified().is_unspecified());
    assert!(addr("fe80::1").is_link_local());
    assert!(addr("ff02::1").is_multicast());
    assert!(!addr("2001:db8::1").is_link_local());
}

#[test]
fn display_compresses_the_longest_zero_run() {
    assert_eq!(Ipv6Addr::loopback().display(), "::1");
    assert_eq!(Ipv6Addr::unspecified().display(), "::");
    assert_eq!(addr("fe80::1").display(), "fe80::1");
    assert_eq!(Ipv6Addr::from_segments([0x2001, 0xdb8, 0, 0, 1, 0, 0, 1]).display(), "2001:db8::1:0:0:1");
    assert_eq!(Ipv6Addr::from_segments([1, 2, 3, 4, 5, 6, 7, 8]).display(), "1:2:3:4:5:6:7:8");
    assert_eq!(Ipv6Addr::from_segments([1, 0, 0, 0, 0, 0, 0, 0]).display(), "1::");
}

#[test]
fn parse_addresses() {
    assert_eq!(addr("::1").segments(), [0, 0, 0, 0, 0, 0, 0, 1]);
    assert_eq!(addr("2001:db8::ff00:42:8329").segments(), [0x2001, 0xdb8, 0, 0, 0, 0xff00, 0x42, 0x8329]);
    assert_eq!(addr("1:2:3:4:5:6:7:8").segments(), [1, 2, 3, 4, 5, 6, 7, 8]);
    assert!(Ipv6Addr::from_str("1:2:3").is_none());
    assert!(Ipv6Addr::from_str("12345::").is_none());
    assert!(Ipv6Addr::from_str("g::1").is_none());
    let a = addr("2001:db8::1:0:0:1");
    assert_eq!(Ipv6Addr::from_str(&a.display()).unwrap().segments(), a.segments());
}

#[test]
fn hex_fields() {
    assert_eq!(parse_hex_u16("ff"), Some(255));
    assert_eq!(parse_hex_u16("FFFF"), Some(65535));
    assert_eq!(parse_hex_u16("10000"), None);
    assert_eq!(parse_hex_u16(""), None);
    assert_eq!(parse_hex_u16("xy"), None);
}

#[test]
fn eui64_from_mac() {
    let a = Ipv6Addr::from_mac(&[0x52, 0x54, 0x00, 0x12, 0x34, 0x56]);
    assert_eq!(a.segments(), [0xfe80, 0, 0, 0, 0x5054, 0x00ff, 0xfe12, 0x3456]);
    assert_eq!(a.display(), "fe80::5054:ff:fe12:3456");
}

#[test]
fn header_round_trip_and_errors() {
    let src = addr("fe80::1");
    let dst = addr("fe80::2");
    let mut pkt = build_header(src, dst, 58, 3, 64);
    assert_eq!(pkt.len(), 40);
    assert_eq!(pkt[0], 0x60);
    pkt.extend_from_slice(&[7, 8, 9, 10]);
    let (h, payload) = parse_header(&pkt).unwrap();
    assert_eq!(h.version, 6);
    assert_eq!(h.payload_length, 3);
    assert_eq!(h.next_header, 58);
    assert_eq!(h.hop_limit, 64);
    assert_eq!(h.src.segments(), src.segments());
    assert_eq!(h.dst.segments(), dst.segments());
    assert_eq!(payload, &[7, 8, 9]);
    assert_eq!(parse_header(&pkt[..10]).err(), Some("ipv6: packet too short for header"));
    let mut bad = pkt.clone();
    bad[0] = 0x40;
    assert_eq!(parse_header(&bad).err(), Some("ipv6: version is not 6"));
}

#[test]
fn icmpv6_messages() {
    let echo = build_echo_request(7, 9);
    assert_eq!(echo.len(), 8);
    assert_eq!(echo[0], ICMPV6_ECHO_REQUEST);
    match parse_icmpv6(&echo).unwrap() {
        IcmpV6Message::EchoRequest { id, seq, data } => {
            assert_eq!((id, seq), (7, 9));
            assert!(data.is_empty());
        }
        _ => panic!("expected an echo request"),
    }
    let target = addr("fe80::abcd");
    let ns = build_neighbor_solicit(target);
    match parse_icmpv6(&ns).unwrap() {
        IcmpV6Message::NeighborSolicit { target: t } => assert_eq!(t.segments(), target.segments()),
        _ => panic!("expected a neighbor solicitation"),
    }
    assert_eq!(parse_icmpv6(&[1, 2]).err(), Some("icmpv6: too short"));
    assert_eq!(parse_icmpv6(&[128, 0, 0, 0]).err(), Some("icmpv6: echo too short"));
    assert_eq!(parse_icmpv6(&[135, 0, 0, 0, 0]).err(), Some("icmpv6: neighbor solicit too short"));
    assert!(matches!(parse_icmpv6(&[133, 0, 0, 0]), Ok(IcmpV6Message::RouterSolicit)));
    assert!(matches!(parse_icmpv6(&[200, 3, 0, 0]), Ok(IcmpV6Message::Unknown { msg_type: 200, code: 3 })));
}

#[test]
fn neighbor_cache() {
    let mut st = Ipv6State::new();
    let a = addr("fe80::10");
    assert_eq!(ndp_lookup(&st, &a), None);
    ndp_add(&mut st, a, [1, 2, 3, 4, 5, 6], 100);
    assert_eq!(ndp_lookup(&st, &a), Some([1, 2, 3, 4, 5, 6]));
    ndp_add(&mut st, a, [9, 9, 9, 9, 9, 9], 200);
    assert_eq!(ndp_lookup(&st, &a), Some([9, 9, 9, 9, 9, 9]));
    assert_eq!(st.neighbors.len(), 1);
    assert!(ndp_table(&st, 300).contains("fe80::10"));
}

#[test]
fn longest_prefix_routing() {
    let mut st = Ipv6State::new();
    add_route(&mut st, addr("2001:db8::"), 32, addr("fe80::1"));
    add_route(&mut st, addr("2001:db8:1::"), 48, addr("fe80::2"));
    assert_eq!(lookup_route(&st, &addr("2001:db8:1::5")).unwrap().segments(), addr("fe80::2").segments());
    assert_eq!(lookup_route(&st, &addr("2001:db8:2::5")).unwrap().segments(), addr("fe80::1").segments());
    assert!(lookup_route(&st, &addr("2001:db9::1")).is_none());
    remove_route(&mut st, &addr("2001:db8:1::"), 48);
    assert_eq!(lookup_route(&st, &addr("2001:db8:1::5")).unwrap().segments(), addr("fe80::1").segments());
    assert!(routing_table(&st).contains("2001:db8::"));
}

#[test]
fn init_send_and_ping() {
    let mut st = Ipv6State::new();
    assert!(!send_ipv6(&mut st, Ipv6Addr::loopback(), 58, &[1, 2]));
    assert_eq!(ping6(&mut st, &Ipv6Addr::loopback()), "ping6 ::1: failed (no source address)");
    init(&mut st);
    assert_eq!(our_ipv6(&st).display(), "fe80::5054:ff:fe12:3456");
    assert_eq!(st.routes.len(), 2);
    assert!(send_ipv6(&mut st, Ipv6Addr::loopback(), 58, &[1, 2]));
    assert_eq!(st.packets_sent, 1);
    assert_eq!(ping6(&mut st, &Ipv6Addr::loopback()), "ping6 ::1 seq=1: sent (8 bytes)");
    assert_eq!(st.pings_sent, 2);
    assert!(ipv6_info(&st).contains("ipv6: address fe80::5054:ff:fe12:3456\n"));
    assert!(!ipv6_stats(&st).is_empty());
}

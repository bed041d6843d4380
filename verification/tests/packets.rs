use netspectrum::capture::{
    capture_next, filter_failure_text, meta_from_headers, open_failure_text, parse, Addr,
    CaptureAction, CaptureEvent, Delivery, Endpoints, Headers, PacketMeta, Transport, L4,
};

fn ethernet(ether_type: u16) -> Vec<u8> {
    let mut frame = vec![0xff; 6];
    frame.extend([2, 0, 0, 0, 0, 1]);
    frame.extend(ether_type.to_be_bytes());
    frame
}

fn ipv4(protocol: u8, payload: &[u8]) -> Vec<u8> {
    let mut frame = ethernet(0x0800);
    frame.extend([0x45, 0]);
    frame.extend((20 + payload.len() as u16).to_be_bytes());
    frame.extend([0, 0, 0x40, 0, 64, protocol, 0, 0]);
    frame.extend([192, 168, 1, 7]);
    frame.extend([8, 8, 4, 4]);
    frame.extend(payload);
    frame
}

fn ipv6(next: u8, payload: &[u8]) -> Vec<u8> {
    let mut frame = ethernet(0x86dd);
    frame.extend([0x60, 0, 0, 0]);
    frame.extend((payload.len() as u16).to_be_bytes());
    frame.extend([next, 64]);
    frame.extend(0x2001_0db8_0000_0000_0000_0000_0000_0001u128.to_be_bytes());
    frame.extend(0xff02_0000_0000_0000_0000_0000_0000_00fbu128.to_be_bytes());
    frame.extend(payload);
    frame
}

fn ports(sport: u16, dport: u16) -> Vec<u8> {
    let mut out = Vec::new();
    out.extend(sport.to_be_bytes());
    out.extend(dport.to_be_bytes());
    out
}

fn udp(sport: u16, dport: u16) -> Vec<u8> {
    let mut out = ports(sport, dport);
    out.extend([0, 8, 0, 0]);
    out
}

fn tcp(sport: u16, dport: u16) -> Vec<u8> {
    let mut out = ports(sport, dport);
    out.extend([0, 0, 0, 1, 0, 0, 0, 0, 0x50, 2, 0, 0, 0, 0, 0, 0]);
    out
}

const HOME: Addr = Addr::V4(0xc0a8_0107);
const SERVER: Addr = Addr::V4(0x0808_0404);

#[test]
fn udp_over_ipv4() {
    let meta = parse(&ipv4(17, &udp(50_000, 53)), 1400, &vec![HOME]).unwrap();
    assert_eq!(
        meta,
        PacketMeta {
            len: 1400,
            src: HOME,
            dst: SERVER,
            sport: 50_000,
            dport: 53,
            l4: L4::Udp,
            ethertype: 0x0800,
            inbound: false,
        }
    );
}

#[test]
fn tcp_over_ipv4() {
    let meta = parse(&ipv4(6, &tcp(443, 51_000)), 60, &vec![SERVER]).unwrap();
    assert_eq!((meta.l4, meta.sport, meta.dport), (L4::Tcp, 443, 51_000));
    assert_eq!((meta.src, meta.dst), (HOME, SERVER));
    assert!(meta.inbound);
    assert_eq!(meta.len, 60);
}

#[test]
fn udp_over_ipv6() {
    let source = Addr::V6(0x2001_0db8_0000_0000_0000_0000_0000_0001);
    let meta = parse(&ipv6(17, &udp(5353, 5353)), 90, &vec![HOME, source]).unwrap();
    assert_eq!(meta.src, source);
    assert_eq!(meta.dst, Addr::V6(0xff02_0000_0000_0000_0000_0000_0000_00fb));
    assert_eq!((meta.l4, meta.sport, meta.dport), (L4::Udp, 5353, 5353));
    assert_eq!(meta.ethertype, 0x86dd);
    assert!(!meta.inbound);
}

#[test]
fn icmp_has_no_ports() {
    let echo = [8, 0, 0, 0, 0, 1, 0, 1];
    let meta = parse(&ipv4(1, &echo), 98, &Vec::new()).unwrap();
    assert_eq!((meta.l4, meta.sport, meta.dport), (L4::Icmp, 0, 0));
    let echo6 = [128, 0, 0, 0, 0, 1, 0, 1];
    let meta = parse(&ipv6(58, &echo6), 118, &Vec::new()).unwrap();
    assert_eq!((meta.l4, meta.sport, meta.dport), (L4::Icmp, 0, 0));
}

#[test]
fn other_transports_have_no_ports() {
    let meta = parse(&ipv4(47, &[0, 0, 8, 0]), 38, &Vec::new()).unwrap();
    assert_eq!((meta.l4, meta.sport, meta.dport), (L4::Other, 0, 0));
    assert_eq!(meta.src, HOME);
}

#[test]
fn arp_has_no_addresses() {
    let mut frame = ethernet(0x0806);
    frame.extend([0u8; 28]);
    let meta = parse(&frame, 42, &Vec::new()).unwrap();
    assert_eq!(meta.ethertype, 0x0806);
    assert_eq!((meta.src, meta.dst), (Addr::V4(0), Addr::V4(0)));
    assert_eq!((meta.l4, meta.sport, meta.dport), (L4::Other, 0, 0));
    assert!(meta.inbound);
}

#[test]
fn a_bare_ethernet_header_is_enough() {
    assert!(parse(&ethernet(0x88cc), 14, &Vec::new()).is_some());
}

#[test]
fn a_vlan_tag_hides_the_inner_ether_type() {
    let inner = ipv4(17, &udp(50_000, 53));
    let mut frame = inner[..12].to_vec();
    frame.extend([0x81, 0, 0, 5]);
    frame.extend(&inner[12..]);
    let meta = parse(&frame, 100, &Vec::new()).unwrap();
    assert_eq!(meta.ethertype, 0x8100);
    assert_eq!((meta.l4, meta.dport), (L4::Udp, 53));
    assert_eq!(meta.src, HOME);
}

#[test]
fn a_fragment_has_no_transport() {
    let mut frame = ipv4(17, &udp(50_000, 53));
    frame[20] = 0x20;
    let meta = parse(&frame, 100, &Vec::new()).unwrap();
    assert_eq!((meta.l4, meta.sport, meta.dport), (L4::Other, 0, 0));
    assert_eq!(meta.src, HOME);
}

#[test]
fn a_truncated_payload_does_not_matter() {
    let mut frame = ipv4(17, &udp(50_000, 53));
    frame[16] = 0x05;
    frame[17] = 0xdc;
    let meta = parse(&frame, 1514, &Vec::new()).unwrap();
    assert_eq!((meta.l4, meta.dport, meta.len), (L4::Udp, 53, 1514));
}

#[test]
fn options_move_the_payload() {
    let mut frame = ipv4(6, &tcp(22, 50_000));
    frame[14] = 0x46;
    frame[17] += 4;
    for _ in 0..4 {
        frame.insert(34, 1);
    }
    let meta = parse(&frame, 60, &Vec::new()).unwrap();
    assert_eq!((meta.l4, meta.sport, meta.dport), (L4::Tcp, 22, 50_000));
}

#[test]
fn tcp_over_ipv6() {
    let meta = parse(&ipv6(6, &tcp(50_000, 443)), 90, &Vec::new()).unwrap();
    assert_eq!((meta.l4, meta.sport, meta.dport), (L4::Tcp, 50_000, 443));
    let meta = parse(&ipv6(59, &[]), 54, &Vec::new()).unwrap();
    assert_eq!((meta.l4, meta.sport, meta.dport), (L4::Other, 0, 0));
}

#[test]
fn payload_bytes_do_not_matter_elsewhere() {
    let echo = [8, 0, 0, 0, 0, 1, 0, 1];
    let frames = [
        ipv6(17, &udp(53, 50_000)),
        ipv6(6, &tcp(53, 50_000)),
        ipv6(58, &echo),
        ipv6(89, &[]),
        ipv4(1, &echo),
        ipv4(47, &[]),
    ];
    for short in frames {
        let mut long = short.clone();
        long.extend([0x5a; 30]);
        let meta = parse(&short, 120, &Vec::new());
        assert!(meta.is_some());
        assert_eq!(meta, parse(&long, 120, &Vec::new()));
    }
}

#[test]
fn payload_bytes_do_not_matter() {
    let short = ipv4(17, &udp(50_000, 53));
    let mut long = short.clone();
    long.extend([0xab; 50]);
    assert_eq!(parse(&short, 92, &Vec::new()), parse(&long, 92, &Vec::new()));
    let short = ipv4(6, &tcp(50_000, 22));
    let mut long = short.clone();
    long.extend([0xcd; 40]);
    assert_eq!(parse(&short, 94, &Vec::new()), parse(&long, 94, &Vec::new()));
    let mut arp = ethernet(0x0806);
    let bare = arp.clone();
    arp.extend([9u8; 28]);
    assert_eq!(parse(&bare, 42, &Vec::new()), parse(&arp, 42, &Vec::new()));
}

#[test]
fn broken_frames_have_no_metadata() {
    assert!(parse(&[], 60, &Vec::new()).is_none());
    assert!(parse(&ethernet(0x0800)[..13], 60, &Vec::new()).is_none());
    assert!(parse(&ethernet(0x0800), 60, &Vec::new()).is_none());
    let frame = ipv4(17, &udp(50_000, 53));
    assert!(parse(&frame[..33], 60, &Vec::new()).is_none());
    assert!(parse(&frame[..41], 60, &Vec::new()).is_none());
    assert!(parse(&ipv6(17, &udp(1, 2))[..53], 60, &Vec::new()).is_none());
}

#[test]
fn without_local_addresses_all_traffic_is_inbound() {
    for frame in [ipv4(17, &udp(1, 2)), ipv6(6, &tcp(3, 4)), ethernet(0x0806)] {
        assert!(parse(&frame, 60, &Vec::new()).unwrap().inbound);
    }
}

#[test]
fn metadata_of_known_headers() {
    let headers = Headers {
        ether_type: Some(0x0800),
        net: Some(Endpoints::V4([1, 2, 3, 4], [255, 254, 253, 252])),
        transport: Some(Transport::Tcp(22, 1022)),
    };
    let meta = meta_from_headers(&headers, 77, &vec![Addr::V4(0x0102_0304)]);
    assert_eq!(meta.src, Addr::V4(0x0102_0304));
    assert_eq!(meta.dst, Addr::V4(0xfffe_fdfc));
    assert_eq!((meta.l4, meta.sport, meta.dport), (L4::Tcp, 22, 1022));
    assert_eq!((meta.len, meta.inbound), (77, false));

    let nothing = Headers { ether_type: None, net: None, transport: None };
    let meta = meta_from_headers(&nothing, 1, &vec![Addr::V4(0)]);
    assert_eq!((meta.ethertype, meta.l4, meta.inbound), (0, L4::Other, false));

    let odd = Headers {
        ether_type: Some(0x0800),
        net: Some(Endpoints::V6([0xff; 16], [0; 16])),
        transport: Some(Transport::Unknown(89)),
    };
    let meta = meta_from_headers(&odd, 1, &Vec::new());
    assert_eq!((meta.src, meta.dst), (Addr::V6(u128::MAX), Addr::V6(0)));
    assert_eq!(meta.l4, L4::Other);
}

#[test]
fn setting_up_the_capture() {
    for filter in [false, true] {
        assert_eq!(
            capture_next(CaptureEvent::Opened(false), filter),
            CaptureAction::RefuseInterface
        );
    }
    assert_eq!(
        capture_next(CaptureEvent::Opened(true), true),
        CaptureAction::CompileFilter
    );
    assert_eq!(
        capture_next(CaptureEvent::Opened(true), false),
        CaptureAction::NextPacket
    );
    assert_eq!(
        capture_next(CaptureEvent::Filtered(false), true),
        CaptureAction::RefuseFilter
    );
    assert_eq!(
        capture_next(CaptureEvent::Filtered(true), true),
        CaptureAction::NextPacket
    );
}

#[test]
fn a_full_queue_does_not_stop_the_capture() {
    let meta = parse(&ipv4(17, &udp(1, 2)), 60, &Vec::new()).unwrap();
    assert_eq!(
        capture_next(CaptureEvent::Packet(Some(meta)), false),
        CaptureAction::Deliver(meta)
    );
    for event in [
        CaptureEvent::Packet(None),
        CaptureEvent::Delivered(Delivery::Queued),
        CaptureEvent::Delivered(Delivery::Dropped),
        CaptureEvent::TimedOut,
    ] {
        assert_eq!(capture_next(event, false), CaptureAction::NextPacket);
    }
    assert_eq!(
        capture_next(CaptureEvent::Delivered(Delivery::Disconnected), false),
        CaptureAction::End
    );
    assert_eq!(
        capture_next(CaptureEvent::Failed, false),
        CaptureAction::Report
    );
}

#[test]
fn failures_are_explained() {
    assert_eq!(
        open_failure_text("eth0", "denied"),
        "error: cannot open 'eth0' for capture: denied\n\
         hint:  run with sudo, or grant the binary capture rights:\n       \
         sudo setcap cap_net_raw,cap_net_admin+ep ./netspectrum"
    );
    assert_eq!(
        filter_failure_text("not port", "syntax error"),
        "error: bad BPF filter 'not port': syntax error"
    );
}

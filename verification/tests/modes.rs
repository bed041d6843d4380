use netspectrum::bands::{
    group_band, labels_for, port_band, proto_band, size_band, Mode, ARP, DB, DHCP, DISC, DNS, FILE,
    HTTP, ICMP, MAIL, NTP, OTHER, OTHER_TCP, OTHER_UDP, QUIC, REMOTE, SSH, SYSLOG, TLS,
};
use netspectrum::capture::{Addr, PacketMeta, L4};

fn packet(l4: L4, sport: u16, dport: u16) -> PacketMeta {
    PacketMeta {
        len: 100,
        src: Addr::V4(0x0a00_0001),
        dst: Addr::V4(0x0a00_0002),
        sport,
        dport,
        l4,
        ethertype: 0x0800,
        inbound: true,
    }
}

#[test]
fn names_of_modes() {
    assert_eq!(Mode::Protocol.name(), "PROTOCOLS");
    assert_eq!(Mode::Ports.name(), "PORT SPECTRUM");
    assert_eq!(Mode::Hosts.name(), "TOP HOSTS");
    assert_eq!(Mode::Hybrid.name(), "PROTOCOL X DIRECTION");
    assert_eq!(Mode::Sizes.name(), "PACKET SIZES");
}

#[test]
fn names_of_modes_are_uppercase() {
    for mode in [Mode::Protocol, Mode::Ports, Mode::Hosts, Mode::Hybrid, Mode::Sizes] {
        assert!(!mode.name().is_empty());
        assert!(!mode.name().contains(|c: char| c.is_ascii_lowercase()));
    }
}

#[test]
fn aliases_of_modes() {
    for s in ["protocol", "protocols", "proto", "PROTOCOL", "Proto"] {
        assert_eq!(Mode::from_str(s), Some(Mode::Protocol));
    }
    for s in ["ports", "port", "PoRt"] {
        assert_eq!(Mode::from_str(s), Some(Mode::Ports));
    }
    for s in ["hosts", "host", "HOSTS"] {
        assert_eq!(Mode::from_str(s), Some(Mode::Hosts));
    }
    for s in ["hybrid", "direction", "Direction"] {
        assert_eq!(Mode::from_str(s), Some(Mode::Hybrid));
    }
    for s in ["sizes", "size", "SIZE"] {
        assert_eq!(Mode::from_str(s), Some(Mode::Sizes));
    }
    for s in ["", "prot", "ports ", "bars"] {
        assert_eq!(Mode::from_str(s), None);
    }
}

#[test]
fn services_by_port() {
    let table: [(usize, L4, &[u16]); 13] = [
        (DNS, L4::Udp, &[53]),
        (DISC, L4::Udp, &[5353, 1900, 5355]),
        (DHCP, L4::Udp, &[67, 68, 546, 547]),
        (NTP, L4::Udp, &[123]),
        (QUIC, L4::Udp, &[443]),
        (TLS, L4::Tcp, &[443, 8443]),
        (HTTP, L4::Tcp, &[80, 8080, 8000]),
        (SSH, L4::Tcp, &[22]),
        (REMOTE, L4::Tcp, &[3389, 5900]),
        (FILE, L4::Tcp, &[445, 139, 2049]),
        (MAIL, L4::Tcp, &[25, 465, 587, 143, 993, 110, 995]),
        (DB, L4::Tcp, &[5432, 3306, 6379, 27017, 9200]),
        (SYSLOG, L4::Udp, &[514, 6514]),
    ];
    for (band, l4, ports) in table {
        for port in ports {
            assert_eq!(proto_band(&packet(l4, 50_000, *port)), band);
            assert_eq!(proto_band(&packet(l4, *port, 50_000)), band);
        }
    }
}

#[test]
fn bands_without_a_service() {
    let mut arp = packet(L4::Other, 0, 0);
    arp.ethertype = 0x0806;
    assert_eq!(proto_band(&arp), ARP);
    assert_eq!(proto_band(&packet(L4::Icmp, 0, 0)), ICMP);
    assert_eq!(proto_band(&packet(L4::Other, 0, 0)), OTHER);
    assert_eq!(proto_band(&packet(L4::Tcp, 50_000, 50_001)), OTHER_TCP);
    assert_eq!(proto_band(&packet(L4::Udp, 50_000, 50_001)), OTHER_UDP);
    assert_eq!(proto_band(&packet(L4::Udp, 50_000, 8443)), TLS);
}

#[test]
fn the_first_service_of_the_precedence_wins() {
    assert_eq!(proto_band(&packet(L4::Udp, 53, 443)), DNS);
    assert_eq!(proto_band(&packet(L4::Tcp, 80, 443)), TLS);
    assert_eq!(proto_band(&packet(L4::Tcp, 22, 80)), HTTP);
    assert_eq!(proto_band(&packet(L4::Udp, 123, 67)), DHCP);
}

#[test]
fn groups_of_the_hybrid_view() {
    assert_eq!(group_band(&packet(L4::Tcp, 50_000, 80)), 0);
    assert_eq!(group_band(&packet(L4::Tcp, 50_000, 443)), 0);
    assert_eq!(group_band(&packet(L4::Udp, 50_000, 443)), 0);
    assert_eq!(group_band(&packet(L4::Udp, 50_000, 53)), 1);
    assert_eq!(group_band(&packet(L4::Tcp, 50_000, 22)), 2);
    assert_eq!(group_band(&packet(L4::Tcp, 50_000, 5900)), 2);
    assert_eq!(group_band(&packet(L4::Tcp, 50_000, 993)), 3);
    assert_eq!(group_band(&packet(L4::Icmp, 0, 0)), 4);
    assert_eq!(group_band(&packet(L4::Udp, 68, 67)), 4);
    assert_eq!(group_band(&packet(L4::Udp, 123, 123)), 4);
    assert_eq!(group_band(&packet(L4::Udp, 50_000, 514)), 4);
    assert_eq!(group_band(&packet(L4::Udp, 5353, 5353)), 5);
    assert_eq!(group_band(&packet(L4::Tcp, 50_000, 445)), 6);
    assert_eq!(group_band(&packet(L4::Tcp, 50_000, 5432)), 6);
    assert_eq!(group_band(&packet(L4::Tcp, 50_000, 50_001)), 7);
    assert_eq!(group_band(&packet(L4::Other, 0, 0)), 7);
}

#[test]
fn ports_fall_into_powers_of_two() {
    assert_eq!(port_band(&packet(L4::Tcp, 0, 0)), 0);
    assert_eq!(port_band(&packet(L4::Tcp, 1, 1)), 0);
    for b in 1..16usize {
        let low = 1u32 << b;
        let high = (1u32 << (b + 1)) - 1;
        assert_eq!(port_band(&packet(L4::Tcp, low as u16, 65_535)), b);
        assert_eq!(port_band(&packet(L4::Tcp, 65_535, high as u16)), b);
    }
}

#[test]
fn the_lower_port_counts_unless_it_is_zero() {
    assert_eq!(port_band(&packet(L4::Tcp, 443, 50_000)), 8);
    assert_eq!(port_band(&packet(L4::Tcp, 50_000, 443)), 8);
    assert_eq!(port_band(&packet(L4::Udp, 0, 443)), 8);
    assert_eq!(port_band(&packet(L4::Udp, 443, 0)), 8);
}

#[test]
fn port_bands_agree_with_leading_zeros() {
    for port in 1..=u16::MAX {
        let expected = 15 - port.leading_zeros() as usize;
        assert_eq!(port_band(&packet(L4::Tcp, port, port)), expected);
    }
}

#[test]
fn answers_fall_into_the_same_bands() {
    for (a, b) in [(53u16, 50_000u16), (443, 22), (0, 80), (8000, 110), (6, 7)] {
        for l4 in [L4::Tcp, L4::Udp] {
            let m = packet(l4, a, b);
            let back = packet(l4, b, a);
            assert_eq!(proto_band(&m), proto_band(&back));
            assert_eq!(port_band(&m), port_band(&back));
        }
    }
}

#[test]
fn sizes_fall_between_the_edges() {
    let table = [
        (0u32, 0usize),
        (64, 0),
        (65, 1),
        (128, 1),
        (129, 2),
        (256, 2),
        (257, 3),
        (512, 3),
        (513, 4),
        (1024, 4),
        (1025, 5),
        (1280, 5),
        (1281, 6),
        (1518, 6),
        (1519, 7),
        (u32::MAX, 7),
    ];
    for (len, band) in table {
        let mut m = packet(L4::Tcp, 1, 2);
        m.len = len;
        assert_eq!(size_band(&m), band);
    }
}

#[test]
fn longer_packets_never_fall_lower() {
    let mut last = 0usize;
    for len in 0..2000u32 {
        let mut m = packet(L4::Tcp, 1, 2);
        m.len = len;
        assert!(size_band(&m) >= last);
        last = size_band(&m);
    }
}

#[test]
fn every_band_has_a_label() {
    assert_eq!(labels_for(Mode::Protocol, 12).len(), 18);
    assert_eq!(labels_for(Mode::Ports, 12).len(), 16);
    assert_eq!(labels_for(Mode::Hosts, 12), vec!["-".to_string(); 12]);
    assert_eq!(labels_for(Mode::Hybrid, 12).len(), 8);
    assert_eq!(labels_for(Mode::Sizes, 12).len(), 8);
    assert_eq!(labels_for(Mode::Protocol, 12)[DISC], "mDNS/SSDP");
    assert_eq!(labels_for(Mode::Protocol, 12)[OTHER], "other");
    assert_eq!(labels_for(Mode::Ports, 12)[8], "256-511");
    assert_eq!(labels_for(Mode::Hybrid, 12)[4], "INFRA");
    assert_eq!(labels_for(Mode::Sizes, 12)[0], "<=64");
}

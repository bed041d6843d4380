//! Traffic groupings: the display modes, their band labels, and the band that a
//! packet falls into.

use crate::capture::{PacketMeta, L4};
use crate::text::{is_word, lower, texts};
use vstd::prelude::*;
use vstd::string::*;

verus! {

#[derive(Copy, Clone, Debug, PartialEq, Eq, Structural)]
pub enum Mode {
    Protocol,
    Ports,
    Hosts,
    Hybrid,
    Sizes,
}

/// The label of a mode.
pub open spec fn mode_name(mode: Mode) -> Seq<char> {
    match mode {
        Mode::Protocol => "PROTOCOLS"@,
        Mode::Ports => "PORT SPECTRUM"@,
        Mode::Hosts => "TOP HOSTS"@,
        Mode::Hybrid => "PROTOCOL X DIRECTION"@,
        Mode::Sizes => "PACKET SIZES"@,
    }
}

/// The mode that a lower-case word names.
pub open spec fn mode_alias(word: Seq<char>) -> Option<Mode> {
    if word == "protocol"@ || word == "protocols"@ || word == "proto"@ {
        Some(Mode::Protocol)
    } else if word == "ports"@ || word == "port"@ {
        Some(Mode::Ports)
    } else if word == "hosts"@ || word == "host"@ {
        Some(Mode::Hosts)
    } else if word == "hybrid"@ || word == "direction"@ {
        Some(Mode::Hybrid)
    } else if word == "sizes"@ || word == "size"@ {
        Some(Mode::Sizes)
    } else {
        None
    }
}

impl Mode {
    /// Uppercase label shown in the HUD for the current traffic grouping.
    pub fn name(self) -> (r: &'static str)
        ensures
            r@ == mode_name(self),
            r@.len() > 0,
            forall|i: int| 0 <= i < r@.len() ==> !('a' <= #[trigger] r@[i] <= 'z'),
    {
        proof {
            reveal_strlit("PROTOCOLS");
            reveal_strlit("PORT SPECTRUM");
            reveal_strlit("TOP HOSTS");
            reveal_strlit("PROTOCOL X DIRECTION");
            reveal_strlit("PACKET SIZES");
        }
        match self {
            Mode::Protocol => "PROTOCOLS",
            Mode::Ports => "PORT SPECTRUM",
            Mode::Hosts => "TOP HOSTS",
            Mode::Hybrid => "PROTOCOL X DIRECTION",
            Mode::Sizes => "PACKET SIZES",
        }
    }

    /// Parse the CLI-friendly mode aliases; ASCII case does not matter.
    pub fn from_str(s: &str) -> (r: Option<Mode>)
        ensures
            r == mode_alias(lower(s@)),
    {
        if is_word(s, "protocol") || is_word(s, "protocols") || is_word(s, "proto") {
            Some(Mode::Protocol)
        } else if is_word(s, "ports") || is_word(s, "port") {
            Some(Mode::Ports)
        } else if is_word(s, "hosts") || is_word(s, "host") {
            Some(Mode::Hosts)
        } else if is_word(s, "hybrid") || is_word(s, "direction") {
            Some(Mode::Hybrid)
        } else if is_word(s, "sizes") || is_word(s, "size") {
            Some(Mode::Sizes)
        } else {
            None
        }
    }
}

/// A text names the same mode in any ASCII case: putting it in lower case first
/// changes nothing.
pub proof fn lemma_mode_ignores_case(s: Seq<char>)
    ensures
        mode_alias(lower(lower(s))) == mode_alias(lower(s)),
{
    assert(lower(lower(s)) =~= lower(s));
}

/// A word names a mode exactly if it is one of eleven.
pub proof fn lemma_mode_words(word: Seq<char>)
    ensures
        mode_alias(word) is Some <==> seq![
            "protocol"@,
            "protocols"@,
            "proto"@,
            "ports"@,
            "port"@,
            "hosts"@,
            "host"@,
            "hybrid"@,
            "direction"@,
            "sizes"@,
            "size"@,
        ].contains(word),
{
    let all = seq![
        "protocol"@,
        "protocols"@,
        "proto"@,
        "ports"@,
        "port"@,
        "hosts"@,
        "host"@,
        "hybrid"@,
        "direction"@,
        "sizes"@,
        "size"@,
    ];
    if mode_alias(word) is Some {
        let i: int = if word == all[0] {
            0
        } else if word == all[1] {
            1
        } else if word == all[2] {
            2
        } else if word == all[3] {
            3
        } else if word == all[4] {
            4
        } else if word == all[5] {
            5
        } else if word == all[6] {
            6
        } else if word == all[7] {
            7
        } else if word == all[8] {
            8
        } else if word == all[9] {
            9
        } else {
            10
        };
        assert(all[i] == word);
    }
}

// ---------------------------------------------------------------- protocols

pub const ARP: usize = 0;

pub const ICMP: usize = 1;

pub const DHCP: usize = 2;

pub const NTP: usize = 3;

pub const DNS: usize = 4;

pub const DISC: usize = 5;

pub const HTTP: usize = 6;

pub const TLS: usize = 7;

pub const QUIC: usize = 8;

pub const SSH: usize = 9;

pub const REMOTE: usize = 10;

pub const FILE: usize = 11;

pub const MAIL: usize = 12;

pub const DB: usize = 13;

pub const SYSLOG: usize = 14;

pub const OTHER_TCP: usize = 15;

pub const OTHER_UDP: usize = 16;

pub const OTHER: usize = 17;

/// Whether a port belongs to the service of a protocol band.
pub open spec fn service_port(band: usize, port: u16) -> bool {
    if band == DNS {
        port == 53
    } else if band == DISC {
        port == 5353 || port == 1900 || port == 5355
    } else if band == DHCP {
        port == 67 || port == 68 || port == 546 || port == 547
    } else if band == NTP {
        port == 123
    } else if band == QUIC {
        port == 443
    } else if band == TLS {
        port == 443 || port == 8443
    } else if band == HTTP {
        port == 80 || port == 8080 || port == 8000
    } else if band == SSH {
        port == 22
    } else if band == REMOTE {
        port == 3389 || port == 5900
    } else if band == FILE {
        port == 445 || port == 139 || port == 2049
    } else if band == MAIL {
        port == 25 || port == 465 || port == 587 || port == 143 || port == 993 || port == 110
            || port == 995
    } else if band == DB {
        port == 5432 || port == 3306 || port == 6379 || port == 27017 || port == 9200
    } else if band == SYSLOG {
        port == 514 || port == 6514
    } else {
        false
    }
}

/// Whether a TCP or UDP packet belongs to a service: one of its ports does, and
/// QUIC runs over UDP only.
pub open spec fn serves(m: PacketMeta, band: usize) -> bool {
    (service_port(band, m.sport) || service_port(band, m.dport)) && (band == QUIC ==> m.l4 == L4::Udp)
}

/// The service bands, the ones that win over others first.
pub open spec fn precedence() -> Seq<usize> {
    seq![DNS, DISC, DHCP, NTP, QUIC, TLS, HTTP, SSH, REMOTE, FILE, MAIL, DB, SYSLOG]
}

/// The first band from position `k` of the precedence that a TCP or UDP packet
/// belongs to, or the rest band of its transport protocol.
pub open spec fn service_from(m: PacketMeta, k: int) -> usize
    decreases 13 - k,
{
    if k >= 13 {
        if m.l4 == L4::Tcp {
            OTHER_TCP
        } else {
            OTHER_UDP
        }
    } else if serves(m, precedence()[k]) {
        precedence()[k]
    } else {
        service_from(m, k + 1)
    }
}

/// The protocol band of a packet: ARP by its ether type, then ICMP, then the
/// services by their ports.
pub open spec fn protocol_of(m: PacketMeta) -> usize {
    if m.ethertype == 0x0806 {
        ARP
    } else {
        match m.l4 {
            L4::Icmp => ICMP,
            L4::Other => OTHER,
            L4::Tcp | L4::Udp => service_from(m, 0),
        }
    }
}

fn uses(m: &PacketMeta, port: u16) -> (r: bool)
    ensures
        r == (m.sport == port || m.dport == port),
{
    m.sport == port || m.dport == port
}

/// Map common L4 service ports and ARP/ICMP into the fixed protocol bands.
pub fn proto_band(m: &PacketMeta) -> (r: usize)
    ensures
        r == protocol_of(*m),
        r < 18,
{
    if m.ethertype == 0x0806 {
        return ARP;
    }
    proof {
        reveal_with_fuel(service_from, 14);
    }
    match m.l4 {
        L4::Icmp => ICMP,
        L4::Other => OTHER,
        L4::Tcp | L4::Udp => {
            if uses(m, 53) {
                DNS
            } else if uses(m, 5353) || uses(m, 1900) || uses(m, 5355) {
                DISC
            } else if uses(m, 67) || uses(m, 68) || uses(m, 546) || uses(m, 547) {
                DHCP
            } else if uses(m, 123) {
                NTP
            } else if m.l4 == L4::Udp && uses(m, 443) {
                QUIC
            } else if uses(m, 443) || uses(m, 8443) {
                TLS
            } else if uses(m, 80) || uses(m, 8080) || uses(m, 8000) {
                HTTP
            } else if uses(m, 22) {
                SSH
            } else if uses(m, 3389) || uses(m, 5900) {
                REMOTE
            } else if uses(m, 445) || uses(m, 139) || uses(m, 2049) {
                FILE
            } else if uses(m, 25) || uses(m, 465) || uses(m, 587) || uses(m, 143) || uses(m, 993)
                || uses(m, 110) || uses(m, 995) {
                MAIL
            } else if uses(m, 5432) || uses(m, 3306) || uses(m, 6379) || uses(m, 27017) || uses(
                m,
                9200,
            ) {
                DB
            } else if uses(m, 514) || uses(m, 6514) {
                SYSLOG
            } else if m.l4 == L4::Tcp {
                OTHER_TCP
            } else {
                OTHER_UDP
            }
        },
    }
}

/// The packet that answers `m`: addresses and ports change places.
pub open spec fn answer_to(m: PacketMeta) -> PacketMeta {
    PacketMeta { src: m.dst, dst: m.src, sport: m.dport, dport: m.sport, ..m }
}

proof fn lemma_service_symmetric(m: PacketMeta, k: int)
    ensures
        service_from(answer_to(m), k) == service_from(m, k),
    decreases 13 - k,
{
    if k < 13 {
        lemma_service_symmetric(m, k + 1);
    }
}

/// The ports of the services that have a band of their own.
pub open spec fn known_port(port: u16) -> bool {
    seq![
        53u16, 5353, 1900, 5355, 67, 68, 546, 547, 123, 443, 8443, 80, 8080, 8000, 22, 3389, 5900,
        445, 139, 2049, 25, 465, 587, 143, 993, 110, 995, 5432, 3306, 6379, 27017, 9200, 514, 6514,
    ].contains(port)
}

proof fn lemma_known_port(port: u16)
    ensures
        known_port(port) <==> (port == 53 || port == 5353 || port == 1900 || port == 5355 || port == 67
            || port == 68 || port == 546 || port == 547 || port == 123 || port == 443 || port == 8443
            || port == 80 || port == 8080 || port == 8000 || port == 22 || port == 3389 || port == 5900
            || port == 445 || port == 139 || port == 2049 || port == 25 || port == 465 || port == 587
            || port == 143 || port == 993 || port == 110 || port == 995 || port == 5432 || port == 3306
            || port == 6379 || port == 27017 || port == 9200 || port == 514 || port == 6514),
{
    let all = seq![
        53u16, 5353, 1900, 5355, 67, 68, 546, 547, 123, 443, 8443, 80, 8080, 8000, 22, 3389, 5900,
        445, 139, 2049, 25, 465, 587, 143, 993, 110, 995, 5432, 3306, 6379, 27017, 9200, 514, 6514,
    ];
    assert(all[0] == 53 && all[1] == 5353 && all[2] == 1900 && all[3] == 5355 && all[4] == 67);
    assert(all[5] == 68 && all[6] == 546 && all[7] == 547 && all[8] == 123 && all[9] == 443);
    assert(all[10] == 8443 && all[11] == 80 && all[12] == 8080 && all[13] == 8000);
    assert(all[14] == 22 && all[15] == 3389 && all[16] == 5900 && all[17] == 445);
    assert(all[18] == 139 && all[19] == 2049 && all[20] == 25 && all[21] == 465);
    assert(all[22] == 587 && all[23] == 143 && all[24] == 993 && all[25] == 110);
    assert(all[26] == 995 && all[27] == 5432 && all[28] == 3306 && all[29] == 6379);
    assert(all[30] == 27017 && all[31] == 9200 && all[32] == 514 && all[33] == 6514);
}

/// Only transport protocol and ports matter, once a packet is not ARP: neither
/// the ether type (IPv4, IPv6, a VLAN tag) nor addresses, length or direction do.
/// ARP and only ARP is in the first band, ICMP and only ICMP in the second, and
/// only what is neither TCP, UDP nor ICMP in the last.
pub proof fn lemma_protocol_by_transport(a: PacketMeta, b: PacketMeta)
    ensures
        a.ethertype != 0x0806 && b.ethertype != 0x0806 && a.l4 == b.l4 && a.sport == b.sport && a.dport
            == b.dport ==> protocol_of(a) == protocol_of(b),
        protocol_of(a) == 0 <==> a.ethertype == 0x0806,
        protocol_of(a) == 1 <==> a.ethertype != 0x0806 && a.l4 == L4::Icmp,
        protocol_of(a) == 17 <==> a.ethertype != 0x0806 && a.l4 == L4::Other,
        protocol_of(a) < 18,
{
    reveal_with_fuel(service_from, 14);
    lemma_service_congruent(a, b, 0);
}

proof fn lemma_service_congruent(a: PacketMeta, b: PacketMeta, k: int)
    ensures
        a.l4 == b.l4 && a.sport == b.sport && a.dport == b.dport ==> service_from(a, k)
            == service_from(b, k),
    decreases 13 - k,
{
    if k < 13 {
        lemma_service_congruent(a, b, k + 1);
    }
}

/// A TCP or UDP packet without a service port is in the rest band of its
/// transport protocol, and one with a service port never is.
pub proof fn lemma_rest_bands(m: PacketMeta)
    requires
        m.ethertype != 0x0806,
        m.l4 == L4::Tcp || m.l4 == L4::Udp,
    ensures
        protocol_of(m) == 15 <==> m.l4 == L4::Tcp && !known_port(m.sport) && !known_port(m.dport),
        protocol_of(m) == 16 <==> m.l4 == L4::Udp && !known_port(m.sport) && !known_port(m.dport),
{
    reveal_with_fuel(service_from, 14);
    lemma_known_port(m.sport);
    lemma_known_port(m.dport);
}

/// The services by their ports: a TCP or UDP packet with `port` on either side,
/// and no other service port, is counted in the bar that carries this label.
pub proof fn lemma_service_bars(m: PacketMeta, port: u16, n_hosts: nat)
    requires
        m.ethertype != 0x0806,
        m.l4 == L4::Tcp || m.l4 == L4::Udp,
        (m.sport == port && (m.dport == port || !known_port(m.dport))) || (m.dport == port
            && !known_port(m.sport)),
    ensures
        ({
            let label = label_at(Mode::Protocol, n_hosts, protocol_of(m));
            &&& port == 53 ==> label == "DNS"@
            &&& port == 5353 || port == 1900 || port == 5355 ==> label == "mDNS/SSDP"@
            &&& port == 67 || port == 68 || port == 546 || port == 547 ==> label == "DHCP"@
            &&& port == 123 ==> label == "NTP"@
            &&& port == 443 && m.l4 == L4::Udp ==> label == "QUIC"@
            &&& port == 443 && m.l4 == L4::Tcp ==> label == "TLS"@
            &&& port == 8443 ==> label == "TLS"@
            &&& port == 80 || port == 8080 || port == 8000 ==> label == "HTTP"@
            &&& port == 22 ==> label == "SSH"@
            &&& port == 3389 || port == 5900 ==> label == "RDP/VNC"@
            &&& port == 445 || port == 139 || port == 2049 ==> label == "SMB/NFS"@
            &&& port == 25 || port == 465 || port == 587 || port == 143 || port == 993 || port == 110
                || port == 995 ==> label == "MAIL"@
            &&& port == 5432 || port == 3306 || port == 6379 || port == 27017 || port == 9200 ==> label
                == "DB"@
            &&& port == 514 || port == 6514 ==> label == "SYSLOG"@
        }),
{
    reveal_with_fuel(service_from, 14);
    lemma_known_port(m.sport);
    lemma_known_port(m.dport);
}

/// The remaining bars by their labels: ARP, ICMP, other TCP, other UDP, and what
/// is none of these.
pub proof fn lemma_other_bars(m: PacketMeta, n_hosts: nat)
    ensures
        ({
            let label = label_at(Mode::Protocol, n_hosts, protocol_of(m));
            &&& m.ethertype == 0x0806 ==> label == "ARP"@
            &&& m.ethertype != 0x0806 && m.l4 == L4::Icmp ==> label == "ICMP"@
            &&& m.ethertype != 0x0806 && m.l4 == L4::Other ==> label == "other"@
            &&& m.ethertype != 0x0806 && m.l4 == L4::Tcp && !known_port(m.sport) && !known_port(
                m.dport,
            ) ==> label == "TCP other"@
            &&& m.ethertype != 0x0806 && m.l4 == L4::Udp && !known_port(m.sport) && !known_port(
                m.dport,
            ) ==> label == "UDP other"@
        }),
{
    lemma_protocol_by_transport(m, m);
    if m.ethertype != 0x0806 && (m.l4 == L4::Tcp || m.l4 == L4::Udp) {
        lemma_rest_bands(m);
    }
}

/// With two service ports the more telling service wins: the band of a packet is
/// the first, in this order, of the bands that its two ports have alone.
pub proof fn lemma_stronger_service(m: PacketMeta)
    requires
        m.ethertype != 0x0806,
        m.l4 == L4::Tcp || m.l4 == L4::Udp,
    ensures
        ({
            let order = seq![4usize, 5, 2, 3, 8, 7, 6, 9, 10, 11, 12, 13, 14, 15, 16];
            let a = protocol_of(PacketMeta { dport: 0, ..m });
            let b = protocol_of(PacketMeta { sport: 0, ..m });
            exists|k: int|
                0 <= k < 15 && #[trigger] order[k] == protocol_of(m) && (order[k] == a || order[k]
                    == b) && forall|j: int| 0 <= j < k ==> #[trigger] order[j] != a && order[j] != b
        }),
{
    reveal_with_fuel(service_from, 14);
    let order = seq![4usize, 5, 2, 3, 8, 7, 6, 9, 10, 11, 12, 13, 14, 15, 16];
    let band = protocol_of(m);
    let k: int = if band == 4 {
        0
    } else if band == 5 {
        1
    } else if band == 2 {
        2
    } else if band == 3 {
        3
    } else if band == 8 {
        4
    } else if band == 7 {
        5
    } else if band == 6 {
        6
    } else if band == 9 {
        7
    } else if band == 10 {
        8
    } else if band == 11 {
        9
    } else if band == 12 {
        10
    } else if band == 13 {
        11
    } else if band == 14 {
        12
    } else if band == 15 {
        13
    } else {
        14
    };
    assert(order[k] == band);
}

// ---------------------------------------------------------------- groups

/// The group of the hybrid view that a protocol band belongs to.
pub open spec fn group_of(band: usize) -> usize {
    if band == HTTP || band == TLS || band == QUIC {
        0
    } else if band == DNS {
        1
    } else if band == SSH || band == REMOTE {
        2
    } else if band == MAIL {
        3
    } else if band == ARP || band == ICMP || band == DHCP || band == NTP || band == SYSLOG {
        4
    } else if band == DISC {
        5
    } else if band == FILE || band == DB {
        6
    } else {
        7
    }
}

/// Collapse the detailed protocol map into the smaller directional hybrid set.
pub fn group_band(m: &PacketMeta) -> (r: usize)
    ensures
        r == group_of(protocol_of(*m)),
        r < 8,
{
    let band = proto_band(m);
    if band == HTTP || band == TLS || band == QUIC {
        0
    } else if band == DNS {
        1
    } else if band == SSH || band == REMOTE {
        2
    } else if band == MAIL {
        3
    } else if band == ARP || band == ICMP || band == DHCP || band == NTP || band == SYSLOG {
        4
    } else if band == DISC {
        5
    } else if band == FILE || band == DB {
        6
    } else {
        7
    }
}

/// The group of each protocol bar by the two labels: which label of the hybrid
/// view stands for which labels of the protocol view.
pub proof fn lemma_group_labels(band: usize, n_hosts: nat)
    requires
        band < 18,
    ensures
        ({
            let group = mode_labels(Mode::Hybrid, n_hosts)[group_of(band) as int];
            let label = mode_labels(Mode::Protocol, n_hosts)[band as int];
            &&& group_of(band) < 8
            &&& band == 6 || band == 7 || band == 8 ==> group == "WEB"@
            &&& band == 4 ==> group == "DNS"@ && label == "DNS"@
            &&& band == 9 || band == 10 ==> group == "REMOTE"@
            &&& band == 12 ==> group == "MAIL"@ && label == "MAIL"@
            &&& band == 0 || band == 1 || band == 2 || band == 3 || band == 14 ==> group == "INFRA"@
            &&& band == 5 ==> group == "DISCOVERY"@
            &&& band == 11 || band == 13 ==> group == "DATA"@
            &&& band == 15 || band == 16 || band == 17 ==> group == "OTHER"@
        }),
{
}

// ---------------------------------------------------------------- ports

/// The lower of a packet's two ports; a port of zero does not count.
pub open spec fn lower_port(m: PacketMeta) -> u16 {
    if m.sport == 0 {
        m.dport
    } else if m.dport == 0 {
        m.sport
    } else if m.sport < m.dport {
        m.sport
    } else {
        m.dport
    }
}

/// The number of times that a port can be halved before it is below two: its
/// base-two logarithm, rounded down.
pub open spec fn halvings(port: nat) -> nat
    decreases port,
{
    if port < 2 {
        0
    } else {
        1 + halvings(port / 2)
    }
}

/// Bucket traffic by the lower endpoint port using log2-style ranges.
pub fn port_band(m: &PacketMeta) -> (r: usize)
    ensures
        r == halvings(lower_port(*m) as nat),
        r < 16,
{
    let mut p: u16 = if m.sport == 0 {
        m.dport
    } else if m.dport == 0 {
        m.sport
    } else if m.sport < m.dport {
        m.sport
    } else {
        m.dport
    };
    let ghost port = p as nat;
    let mut r: usize = 0;
    proof {
        reveal_with_fuel(halvings, 17);
        assert(halvings(port) < 16);
    }
    while p >= 2
        invariant
            r + halvings(p as nat) == halvings(port),
            halvings(port) < 16,
        decreases p,
    {
        p = p / 2;
        r += 1;
    }
    r
}

/// Band `b` of the port view holds the ports from `2^b` up to `2^(b + 1) - 1`;
/// band zero also holds port zero.
pub proof fn lemma_port_range(port: nat)
    ensures
        port >= 1 ==> vstd::arithmetic::power2::pow2(halvings(port)) <= port,
        port < vstd::arithmetic::power2::pow2(halvings(port) + 1),
    decreases port,
{
    vstd::arithmetic::power2::lemma2_to64();
    if port >= 2 {
        lemma_port_range(port / 2);
        vstd::arithmetic::power2::lemma_pow2_unfold(halvings(port));
        vstd::arithmetic::power2::lemma_pow2_unfold(halvings(port) + 1);
    }
}

/// The port band of a packet holds the lesser of its two nonzero ports, and a
/// packet without any port is in the first band. The side a port stands on does
/// not matter.
pub proof fn lemma_port_band(m: PacketMeta)
    ensures
        ({
            let band = halvings(lower_port(m) as nat);
            let low = vstd::arithmetic::power2::pow2(band);
            let high = vstd::arithmetic::power2::pow2(band + 1);
            &&& band < 16
            &&& m.sport == 0 && m.dport == 0 ==> band == 0
            &&& m.sport != 0 && (m.dport == 0 || m.sport <= m.dport) ==> low <= m.sport < high
            &&& m.dport != 0 && (m.sport == 0 || m.dport <= m.sport) ==> low <= m.dport < high
        }),
{
    reveal_with_fuel(halvings, 17);
    lemma_port_range(lower_port(m) as nat);
}

/// The labels of the port view name the ranges that its bands hold.
pub proof fn lemma_port_labels(n_hosts: nat)
    ensures
        ({
            let labels = mode_labels(Mode::Ports, n_hosts);
            &&& labels[0] == "0-1"@ && labels[1] == "2-3"@ && labels[2] == "4-7"@
            &&& labels[3] == "8-15"@ && labels[4] == "16-31"@ && labels[5] == "32-63"@
            &&& labels[6] == "64-127"@ && labels[7] == "128-255"@ && labels[8] == "256-511"@
            &&& labels[9] == "512-1k"@ && labels[10] == "1k-2k"@ && labels[11] == "2k-4k"@
            &&& labels[12] == "4k-8k"@ && labels[13] == "8k-16k"@ && labels[14] == "16k-32k"@
            &&& labels[15] == "32k+"@
        }),
{
}

// ---------------------------------------------------------------- sizes

/// The size band of a wire length: the number of band edges below it.
pub open spec fn size_of_len(len: u32) -> usize {
    if len <= 64 {
        0
    } else if len <= 128 {
        1
    } else if len <= 256 {
        2
    } else if len <= 512 {
        3
    } else if len <= 1024 {
        4
    } else if len <= 1280 {
        5
    } else if len <= 1518 {
        6
    } else {
        7
    }
}

/// Convert captured wire length into packet-size histogram bands.
pub fn size_band(m: &PacketMeta) -> (r: usize)
    ensures
        r == size_of_len(m.len),
        r < 8,
{
    let edges: [u32; 7] = [64, 128, 256, 512, 1024, 1280, 1518];
    let mut i: usize = 0;
    while i < 7
        invariant
            i <= 7,
            edges@ == seq![64u32, 128, 256, 512, 1024, 1280, 1518],
            forall|j: int| 0 <= j < i ==> edges@[j] < m.len,
        decreases 7 - i,
    {
        if m.len <= edges[i] {
            assert(i >= 1 ==> edges@[i - 1] < m.len);
            return i;
        }
        i += 1;
    }
    assert(edges@[6] < m.len);
    7
}

/// The size band of a length lies between its edges, and carries the label that
/// names them.
pub proof fn lemma_size_edges(len: u32, n_hosts: nat)
    ensures
        ({
            let edges = seq![64u32, 128, 256, 512, 1024, 1280, 1518];
            let band = size_of_len(len);
            let label = mode_labels(Mode::Sizes, n_hosts)[band as int];
            &&& band < 8
            &&& band < 7 ==> len <= edges[band as int]
            &&& band > 0 ==> len > edges[band - 1]
            &&& len <= 64 ==> label == "<=64"@
            &&& 65 <= len <= 128 ==> label == "65-128"@
            &&& 129 <= len <= 256 ==> label == "129-256"@
            &&& 257 <= len <= 512 ==> label == "257-512"@
            &&& 513 <= len <= 1024 ==> label == "513-1k"@
            &&& 1025 <= len <= 1280 ==> label == "1k-1.2k"@
            &&& 1281 <= len <= 1518 ==> label == "1.2k-1.5k"@
            &&& len > 1518 ==> label == "jumbo"@
        }),
{
}

/// Both directions of a conversation fall into the same protocol band and the
/// same port band.
pub proof fn lemma_bands_symmetric(m: PacketMeta)
    ensures
        protocol_of(answer_to(m)) == protocol_of(m),
        lower_port(answer_to(m)) == lower_port(m),
{
    lemma_service_symmetric(m, 0);
}

/// A longer packet never falls into a lower size band.
pub proof fn lemma_size_monotone(a: u32, b: u32)
    requires
        a <= b,
    ensures
        size_of_len(a) <= size_of_len(b),
{
}

// ---------------------------------------------------------------- labels

/// The labels of the bands of a mode with a fixed set of bands; in the hosts
/// mode, those of `n_hosts` empty slots.
pub open spec fn mode_labels(mode: Mode, n_hosts: nat) -> Seq<Seq<char>> {
    match mode {
        Mode::Protocol => seq![
            "ARP"@,
            "ICMP"@,
            "DHCP"@,
            "NTP"@,
            "DNS"@,
            "mDNS/SSDP"@,
            "HTTP"@,
            "TLS"@,
            "QUIC"@,
            "SSH"@,
            "RDP/VNC"@,
            "SMB/NFS"@,
            "MAIL"@,
            "DB"@,
            "SYSLOG"@,
            "TCP other"@,
            "UDP other"@,
            "other"@,
        ],
        Mode::Ports => seq![
            "0-1"@,
            "2-3"@,
            "4-7"@,
            "8-15"@,
            "16-31"@,
            "32-63"@,
            "64-127"@,
            "128-255"@,
            "256-511"@,
            "512-1k"@,
            "1k-2k"@,
            "2k-4k"@,
            "4k-8k"@,
            "8k-16k"@,
            "16k-32k"@,
            "32k+"@,
        ],
        Mode::Hosts => Seq::new(n_hosts, |i: int| "-"@),
        Mode::Hybrid => seq![
            "WEB"@,
            "DNS"@,
            "REMOTE"@,
            "MAIL"@,
            "INFRA"@,
            "DISCOVERY"@,
            "DATA"@,
            "OTHER"@,
        ],
        Mode::Sizes => seq![
            "<=64"@,
            "65-128"@,
            "129-256"@,
            "257-512"@,
            "513-1k"@,
            "1k-1.2k"@,
            "1.2k-1.5k"@,
            "jumbo"@,
        ],
    }
}

/// The label of one band of a mode.
pub open spec fn label_at(mode: Mode, n_hosts: nat, band: usize) -> Seq<char> {
    mode_labels(mode, n_hosts)[band as int]
}

/// The number of bands of a mode.
pub open spec fn band_total(mode: Mode, n_hosts: nat) -> nat {
    match mode {
        Mode::Protocol => 18,
        Mode::Ports => 16,
        Mode::Hosts => n_hosts,
        Mode::Hybrid => 8,
        Mode::Sizes => 8,
    }
}

/// Each band of a mode has a label.
pub proof fn lemma_labels_total(mode: Mode, n_hosts: nat)
    ensures
        mode_labels(mode, n_hosts).len() == band_total(mode, n_hosts),
{
}

fn owned(words: Vec<&'static str>) -> (r: Vec<String>)
    ensures
        texts(r@) == words@.map_values(|w: &'static str| w@),
{
    let mut r: Vec<String> = Vec::new();
    let mut i: usize = 0;
    while i < words.len()
        invariant
            i <= words@.len(),
            texts(r@) == words@.map_values(|w: &'static str| w@).take(i as int),
        decreases words@.len() - i,
    {
        let ghost before = r@;
        r.push(words[i].to_owned());
        assert(texts(r@) =~= texts(before).push(words@[i as int]@));
        assert(texts(r@) =~= words@.map_values(|w: &'static str| w@).take(i + 1));
        i += 1;
    }
    assert(texts(r@) =~= words@.map_values(|w: &'static str| w@));
    r
}

/// The labels that a mode starts with.
pub fn labels_for(mode: Mode, n_hosts: usize) -> (r: Vec<String>)
    ensures
        texts(r@) == mode_labels(mode, n_hosts as nat),
{
    let words: Vec<&'static str> = match mode {
        Mode::Protocol => vec![
            "ARP",
            "ICMP",
            "DHCP",
            "NTP",
            "DNS",
            "mDNS/SSDP",
            "HTTP",
            "TLS",
            "QUIC",
            "SSH",
            "RDP/VNC",
            "SMB/NFS",
            "MAIL",
            "DB",
            "SYSLOG",
            "TCP other",
            "UDP other",
            "other",
        ],
        Mode::Ports => vec![
            "0-1",
            "2-3",
            "4-7",
            "8-15",
            "16-31",
            "32-63",
            "64-127",
            "128-255",
            "256-511",
            "512-1k",
            "1k-2k",
            "2k-4k",
            "4k-8k",
            "8k-16k",
            "16k-32k",
            "32k+",
        ],
        Mode::Hosts => {
            let mut dashes: Vec<&'static str> = Vec::new();
            let mut i: usize = 0;
            while i < n_hosts
                invariant
                    i <= n_hosts,
                    dashes@.len() == i,
                    forall|j: int| 0 <= j < i ==> (#[trigger] dashes@[j])@ == "-"@,
                decreases n_hosts - i,
            {
                dashes.push("-");
                i += 1;
            }
            dashes
        },
        Mode::Hybrid => vec![
            "WEB",
            "DNS",
            "REMOTE",
            "MAIL",
            "INFRA",
            "DISCOVERY",
            "DATA",
            "OTHER",
        ],
        Mode::Sizes => vec![
            "<=64",
            "65-128",
            "129-256",
            "257-512",
            "513-1k",
            "1k-1.2k",
            "1.2k-1.5k",
            "jumbo",
        ],
    };
    let r = owned(words);
    assert(texts(r@) =~= mode_labels(mode, n_hosts as nat));
    r
}

} // verus!

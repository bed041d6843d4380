//! Packet metadata: what the visualiser keeps of a captured frame, and the
//! steps of the capture loop.

use etherparse::InternetSlice::{Ipv4, Ipv6};
use etherparse::LinkSlice::Ethernet2;
use etherparse::SlicedPacket;
use etherparse::TransportSlice::{Icmpv4, Icmpv6, Tcp, Udp, Unknown};
use vstd::prelude::*;
use vstd::string::*;

verus! {

/// Transport protocol of a packet, as far as the bands tell protocols apart.
#[derive(Copy, Clone, Debug, PartialEq, Eq, Structural)]
pub enum L4 {
    Tcp,
    Udp,
    Icmp,
    Other,
}

/// An IP address, by the big-endian value of its bytes.
#[derive(Copy, Clone, Debug, PartialEq, Eq, Structural)]
pub enum Addr {
    V4(u32),
    V6(u128),
}

/// The minimal metadata of one packet.
#[derive(Copy, Clone, Debug, PartialEq, Eq, Structural)]
pub struct PacketMeta {
    /// Original wire length in bytes (not the truncated capture).
    pub len: u32,
    pub src: Addr,
    pub dst: Addr,
    pub sport: u16,
    pub dport: u16,
    pub l4: L4,
    pub ethertype: u16,
    pub inbound: bool,
}

/// Source and destination of an IP header, as they stand on the wire.
#[derive(Copy, Clone, Debug)]
pub enum Endpoints {
    V4([u8; 4], [u8; 4]),
    V6([u8; 16], [u8; 16]),
}

/// What follows the IP header, with source and destination port where there
/// are any.
#[derive(Copy, Clone, Debug)]
pub enum Transport {
    Tcp(u16, u16),
    Udp(u16, u16),
    Icmpv4,
    Icmpv6,
    Unknown(u8),
}

/// The headers of a frame, from the link layer up to the transport layer.
#[derive(Copy, Clone, Debug)]
pub struct Headers {
    pub ether_type: Option<u16>,
    pub net: Option<Endpoints>,
    pub transport: Option<Transport>,
}

// ---------------------------------------------------------------- byte values

/// The number that a run of bytes spells, most significant byte first.
pub open spec fn be_value(bytes: Seq<u8>) -> nat
    decreases bytes.len(),
{
    if bytes.len() == 0 {
        0
    } else {
        be_value(bytes.drop_last()) * 256 + bytes.last() as nat
    }
}

/// `n` bytes spell a number below 256 to the power `n`.
pub proof fn lemma_be_value_bound(bytes: Seq<u8>)
    ensures
        be_value(bytes) < vstd::arithmetic::power::pow(256, bytes.len()),
    decreases bytes.len(),
{
    reveal(vstd::arithmetic::power::pow);
    if bytes.len() > 0 {
        lemma_be_value_bound(bytes.drop_last());
        let rest = be_value(bytes.drop_last()) as int;
        let scale = vstd::arithmetic::power::pow(256, (bytes.len() - 1) as nat);
        assert(bytes.drop_last().len() == (bytes.len() - 1) as nat);
        assert(vstd::arithmetic::power::pow(256, bytes.len()) == 256 * scale);
        assert(rest * 256 + 255 < 256 * scale) by (nonlinear_arith)
            requires
                rest < scale,
        ;
    }
}

/// No bytes spell zero, and one more byte at the end makes a number 256 times as
/// large, plus that byte.
pub proof fn lemma_be_value_digits(bytes: Seq<u8>, last: u8)
    ensures
        be_value(Seq::<u8>::empty()) == 0,
        be_value(bytes.push(last)) == 256 * be_value(bytes) + last,
{
    assert(bytes.push(last).drop_last() =~= bytes);
}

fn be_u32(bytes: [u8; 4]) -> (r: u32)
    ensures
        r == be_value(bytes@),
{
    proof {
        reveal_with_fuel(be_value, 5);
        assert(bytes@.drop_last().last() == bytes@[2]);
        assert(bytes@.drop_last().drop_last().last() == bytes@[1]);
        assert(bytes@.drop_last().drop_last().drop_last().last() == bytes@[0]);
    }
    bytes[0] as u32 * 0x100_0000 + bytes[1] as u32 * 0x1_0000 + bytes[2] as u32 * 0x100
        + bytes[3] as u32
}

fn be_u128(bytes: [u8; 16]) -> (r: u128)
    ensures
        r == be_value(bytes@),
{
    let mut r: u128 = 0;
    let mut i: usize = 0;
    while i < 16
        invariant
            i <= 16,
            bytes@.len() == 16,
            r == be_value(bytes@.take(i as int)),
        decreases 16 - i,
    {
        proof {
            let next = bytes@.take(i + 1);
            assert(next.drop_last() =~= bytes@.take(i as int));
            lemma_be_value_bound(next);
            if i < 15 {
                vstd::arithmetic::power::lemma_pow_strictly_increases(256, (i + 1) as nat, 16);
            }
            assert(vstd::arithmetic::power::pow(256, 16) == 0x1_0000_0000_0000_0000_0000_0000_0000_0000) by {
                reveal_with_fuel(vstd::arithmetic::power::pow, 17);
            }
        }
        r = r * 256 + bytes[i] as u128;
        i += 1;
    }
    assert(bytes@.take(16) =~= bytes@);
    r
}

// ---------------------------------------------------------------- slicing

/// The headers that `etherparse` finds in the bytes of an Ethernet II frame, or
/// `None` where it rejects them.
pub uninterp spec fn ethernet_headers(data: Seq<u8>) -> Option<Headers>;

/// Whether a frame of this ether type carries more headers: an IP header, or a
/// VLAN tag before one.
pub open spec fn has_inner_header(ether_type: nat) -> bool {
    ether_type == 0x0800 || ether_type == 0x86dd || ether_type == 0x8100 || ether_type == 0x88a8
        || ether_type == 0x9100
}

/// Whether a frame holds a sound IPv4 header, directly followed by its payload.
pub open spec fn plain_ipv4(data: Seq<u8>) -> bool {
    let words = data[14] % 16;
    &&& data.len() >= 34
    &&& be_value(data.subrange(12, 14)) == 0x0800
    &&& data[14] / 16 == 4
    &&& words >= 5
    &&& data.len() >= 14 + 4 * words
    &&& be_value(data.subrange(16, 18)) >= 4 * words
    &&& data[23] != 51
}

/// Whether a frame holds a sound IPv6 header, directly followed by its payload:
/// no extension header stands between them.
pub open spec fn plain_ipv6(data: Seq<u8>) -> bool {
    let next = data[20];
    &&& data.len() >= 54
    &&& be_value(data.subrange(12, 14)) == 0x86dd
    &&& data[14] / 16 == 6
    &&& next != 0 && next != 43 && next != 44 && next != 51 && next != 60
}

/// Where the payload of a plain IP header starts.
pub open spec fn payload_start(data: Seq<u8>) -> int {
    if plain_ipv4(data) {
        14 + 4 * (data[14] % 16)
    } else {
        54
    }
}

/// The protocol that a plain IP header announces.
pub open spec fn payload_protocol(data: Seq<u8>) -> u8 {
    if plain_ipv4(data) {
        data[23]
    } else {
        data[20]
    }
}

/// Whether a plain IP header is that of a fragment.
pub open spec fn is_fragment(data: Seq<u8>) -> bool {
    plain_ipv4(data) && !(data[20] % 64 == 0 && data[21] == 0)
}

/// The source and destination port at the start of a payload.
pub open spec fn ports_at(data: Seq<u8>, start: int) -> (u16, u16) {
    (
        be_value(data.subrange(start, start + 2)) as u16,
        be_value(data.subrange(start + 2, start + 4)) as u16,
    )
}

/// What is found behind a plain IP header: nothing in a fragment, the header of
/// UDP, TCP or ICMP where it is whole, and only the number of any other protocol.
/// `None` where nothing is said of it: behind other headers, or where the
/// transport header is cut short, malformed or an ICMP timestamp.
pub open spec fn plain_transport(data: Seq<u8>) -> Option<Option<Transport>> {
    let start = payload_start(data);
    let protocol = payload_protocol(data);
    if !plain_ipv4(data) && !plain_ipv6(data) {
        None
    } else if is_fragment(data) {
        Some(None)
    } else if protocol == 17 {
        if data.len() >= start + 8 {
            Some(Some(Transport::Udp(ports_at(data, start).0, ports_at(data, start).1)))
        } else {
            None
        }
    } else if protocol == 6 {
        let words = data[start + 12] / 16;
        if data.len() >= start + 20 && words >= 5 && data.len() >= start + 4 * words {
            Some(Some(Transport::Tcp(ports_at(data, start).0, ports_at(data, start).1)))
        } else {
            None
        }
    } else if protocol == 1 {
        if data.len() >= start + 8 && data[start] != 13 && data[start] != 14 {
            Some(Some(Transport::Icmpv4))
        } else {
            None
        }
    } else if protocol == 58 {
        if start + 8 <= data.len() <= start + 0xffff_ffff {
            Some(Some(Transport::Icmpv6))
        } else {
            None
        }
    } else {
        Some(Some(Transport::Unknown(protocol)))
    }
}

/// The ports of a TCP or UDP frame are the first four bytes behind the IP header,
/// two for the source and two for the destination: behind an IPv4 header of any
/// length that is not that of a fragment, and behind an IPv6 header alike.
pub proof fn lemma_plain_ports(data: Seq<u8>, start: int)
    requires
        data.len() >= 54,
        ({
            ||| data[12] == 0x08 && data[13] == 0x00 && data[14] == 0x40 + (start - 14) / 4 && (start
                - 14) % 4 == 0 && 34 <= start <= 74 && 256 * data[16] + data[17] >= start - 14 && (
            data[20] == 0 || data[20] == 0x40) && data[21] == 0 && (data[23] == 17 || data[23] == 6)
            ||| data[12] == 0x86 && data[13] == 0xdd && data[14] == 0x60 && start == 54 && (data[20]
                == 17 || data[20] == 6)
        }),
        data.len() >= start + 20,
        5 <= data[start + 12] / 16,
        data.len() >= start + 4 * (data[start + 12] / 16),
    ensures
        ({
            let source = (256 * data[start] + data[start + 1]) as u16;
            let destination = (256 * data[start + 2] + data[start + 3]) as u16;
            let protocol = if data[12] == 0x08 {
                data[23]
            } else {
                data[20]
            };
            plain_transport(data) == Some(
                Some(
                    if protocol == 17 {
                        Transport::Udp(source, destination)
                    } else {
                        Transport::Tcp(source, destination)
                    },
                ),
            )
        }),
{
    lemma_two_bytes(data, 12);
    lemma_two_bytes(data, 16);
    lemma_two_bytes(data, start);
    lemma_two_bytes(data, start + 2);
}

/// A fragment of an IPv4 packet, the first one and the later ones alike, is taken
/// to have no transport header, whatever its bytes look like.
pub proof fn lemma_plain_fragment(data: Seq<u8>)
    requires
        data.len() >= 34,
        data[12] == 0x08 && data[13] == 0x00 && data[14] == 0x45 && 256 * data[16] + data[17] >= 20,
        data[23] != 51,
        data[20] % 64 != 0 || data[21] != 0,
    ensures
        plain_transport(data) == Some(None::<Transport>),
{
    lemma_two_bytes(data, 12);
    lemma_two_bytes(data, 16);
}

proof fn lemma_two_bytes(data: Seq<u8>, at: int)
    requires
        0 <= at,
        at + 2 <= data.len(),
    ensures
        be_value(data.subrange(at, at + 2)) == 256 * data[at] + data[at + 1],
{
    reveal_with_fuel(be_value, 3);
    let pair = data.subrange(at, at + 2);
    assert(pair.drop_last().last() == data[at]);
    assert(pair.drop_last().drop_last() =~= Seq::empty());
}

/// What is known of the headers `r` of a frame from its bytes.
pub open spec fn headers_fit(data: Seq<u8>, r: Option<Headers>) -> bool {
    let ether_type = be_value(data.subrange(12, 14));
    match r {
        Some(h) => {
            &&& data.len() >= 14
            &&& h.ether_type matches Some(t) && t == ether_type
            &&& !has_inner_header(ether_type) ==> h.net is None
            &&& h.net is None ==> h.transport is None
            &&& ether_type == 0x0800 ==> {
                &&& data.len() >= 34
                &&& h.net matches Some(Endpoints::V4(s, d))
                &&& s@ == data.subrange(26, 30)
                &&& d@ == data.subrange(30, 34)
            }
            &&& ether_type == 0x86dd ==> {
                &&& data.len() >= 54
                &&& h.net matches Some(Endpoints::V6(s, d))
                &&& s@ == data.subrange(22, 38)
                &&& d@ == data.subrange(38, 54)
            }
            &&& plain_transport(data) matches Some(t) ==> h.transport == t
        },
        None => (data.len() < 14 || has_inner_header(ether_type)) && plain_transport(data) is None,
    }
}

/// Slices `data` with `etherparse::SlicedPacket::from_ethernet` and copies the
/// fields out that the library reads.
///
/// Taken on trust: the result depends on the bytes alone (`ethernet_headers`).
/// A frame shorter than the 14 bytes of an Ethernet header is rejected. A frame
/// that is not rejected has its ether type in bytes 12 and 13; if that announces
/// no further header, the frame is never rejected and has neither an IP nor a
/// transport header. Behind ether type `0x0800` the IPv4 addresses stand at
/// bytes 26 and 30, behind `0x86dd` the IPv6 addresses at bytes 22 and 38. There
/// is no transport header without an IP header. Behind an IPv4 or IPv6 header
/// that is directly followed by its payload, `plain_transport` says what is found
/// and that the frame is not rejected: ports of UDP and TCP at the start of the
/// payload, ICMP, the number of an unknown protocol, nothing in a fragment.
///
/// Nothing is said of the rest of the slicing (VLAN tags, extension headers, ICMP
/// timestamps, which other frames are rejected): that is the text of the parser
/// itself.
#[verifier::external_body]
fn slice_ethernet(data: &[u8]) -> (r: Option<Headers>)
    ensures
        r == ethernet_headers(data@),
        headers_fit(data@, r),
{
    let packet = SlicedPacket::from_ethernet(data).ok()?;
    Some(Headers {
        ether_type: packet.link.map(|Ethernet2(h)| h.ether_type()),
        net: packet.ip.map(|ip| match ip {
            Ipv4(h, _) => Endpoints::V4(h.source(), h.destination()),
            Ipv6(h, _) => Endpoints::V6(h.source(), h.destination()),
        }),
        transport: packet.transport.map(|transport| match transport {
            Tcp(h) => Transport::Tcp(h.source_port(), h.destination_port()),
            Udp(h) => Transport::Udp(h.source_port(), h.destination_port()),
            Icmpv4(_) => Transport::Icmpv4,
            Icmpv6(_) => Transport::Icmpv6,
            Unknown(number) => Transport::Unknown(number),
        }),
    })
}

// ---------------------------------------------------------------- metadata

/// Source and destination of a frame; without an IP header both are the
/// unspecified IPv4 address.
pub open spec fn endpoints_of(net: Option<Endpoints>) -> (Addr, Addr) {
    match net {
        Some(Endpoints::V4(s, d)) => (
            Addr::V4(be_value(s@) as u32),
            Addr::V4(be_value(d@) as u32),
        ),
        Some(Endpoints::V6(s, d)) => (
            Addr::V6(be_value(s@) as u128),
            Addr::V6(be_value(d@) as u128),
        ),
        None => (Addr::V4(0), Addr::V4(0)),
    }
}

/// Transport protocol and ports of a frame; only TCP and UDP have ports.
pub open spec fn transport_of(transport: Option<Transport>) -> (L4, u16, u16) {
    match transport {
        Some(Transport::Tcp(s, d)) => (L4::Tcp, s, d),
        Some(Transport::Udp(s, d)) => (L4::Udp, s, d),
        Some(Transport::Icmpv4) | Some(Transport::Icmpv6) => (L4::Icmp, 0, 0),
        Some(Transport::Unknown(_)) | None => (L4::Other, 0, 0),
    }
}

/// The metadata of a frame with headers `h`. A frame is outbound exactly when
/// its source is one of the `local` addresses.
pub open spec fn meta_of(h: Headers, wire_len: u32, local: Seq<Addr>) -> PacketMeta {
    PacketMeta {
        len: wire_len,
        src: endpoints_of(h.net).0,
        dst: endpoints_of(h.net).1,
        sport: transport_of(h.transport).1,
        dport: transport_of(h.transport).2,
        l4: transport_of(h.transport).0,
        ethertype: match h.ether_type {
            Some(t) => t,
            None => 0,
        },
        inbound: !local.contains(endpoints_of(h.net).0),
    }
}

/// The metadata of a frame, if it could be sliced.
pub open spec fn metadata_of(r: Option<Headers>, wire_len: u32, local: Seq<Addr>) -> Option<PacketMeta> {
    match r {
        Some(h) => Some(meta_of(h, wire_len, local)),
        None => None,
    }
}

/// Where the headers of a frame end that the metadata is read from: behind the
/// Ethernet header, or behind a plain IP header and the fixed part of the
/// transport header.
pub open spec fn headers_end(data: Seq<u8>) -> int {
    let protocol = payload_protocol(data);
    if !plain_ipv4(data) && !plain_ipv6(data) {
        14
    } else if is_fragment(data) {
        payload_start(data)
    } else if protocol == 6 {
        payload_start(data) + 20
    } else if protocol == 17 || protocol == 1 || protocol == 58 {
        payload_start(data) + 8
    } else {
        payload_start(data)
    }
}

/// Payload bytes do not matter: two frames with headers `ra` and `rb` that agree
/// up to the end of their headers have the same metadata. So it is for every
/// frame without an inner header, and for every one with a plain IP header and
/// whatever whole header follows it.
pub proof fn lemma_payload_ignored(
    a: Seq<u8>,
    b: Seq<u8>,
    ra: Option<Headers>,
    rb: Option<Headers>,
    wire_len: u32,
    local: Seq<Addr>,
)
    requires
        headers_fit(a, ra),
        headers_fit(b, rb),
        a.len() >= headers_end(a),
        b.len() >= headers_end(a),
        a.take(headers_end(a)) == b.take(headers_end(a)),
        (plain_transport(a) is Some && plain_transport(b) is Some) || !has_inner_header(
            be_value(a.subrange(12, 14)),
        ),
    ensures
        metadata_of(ra, wire_len, local) == metadata_of(rb, wire_len, local),
{
    let end = headers_end(a);
    let start = payload_start(a);
    assert forall|i: int| 0 <= i < end implies a[i] == b[i] by {
        assert(a[i] == a.take(end)[i]);
        assert(b[i] == b.take(end)[i]);
    }
    assert(a.subrange(12, 14) =~= b.subrange(12, 14));
    if plain_ipv4(a) {
        assert(a.subrange(16, 18) =~= b.subrange(16, 18));
        assert(a.subrange(26, 30) =~= b.subrange(26, 30));
        assert(a.subrange(30, 34) =~= b.subrange(30, 34));
    }
    if plain_ipv6(a) {
        assert(a.subrange(22, 38) =~= b.subrange(22, 38));
        assert(a.subrange(38, 54) =~= b.subrange(38, 54));
    }
    if (plain_ipv4(a) || plain_ipv6(a)) && end >= start + 4 {
        assert(a.subrange(start, start + 2) =~= b.subrange(start, start + 2));
        assert(a.subrange(start + 2, start + 4) =~= b.subrange(start + 2, start + 4));
    }
}

/// Where the addresses of a frame go: source and destination of its IP header, by
/// the value of their bytes, or the unspecified address without one. A frame is
/// outbound exactly if its source is a local address; its length is the one on the
/// wire, and its ether type that of the link header.
pub proof fn lemma_meta_addresses(h: Headers, wire_len: u32, local: Seq<Addr>)
    ensures
        ({
            let m = meta_of(h, wire_len, local);
            &&& m.len == wire_len
            &&& h.ether_type matches Some(t) ==> m.ethertype == t
            &&& h.ether_type is None ==> m.ethertype == 0
            &&& h.net matches Some(Endpoints::V4(s, d)) ==> m.src == Addr::V4(be_value(s@) as u32)
                && m.dst == Addr::V4(be_value(d@) as u32)
            &&& h.net matches Some(Endpoints::V6(s, d)) ==> m.src == Addr::V6(be_value(s@) as u128)
                && m.dst == Addr::V6(be_value(d@) as u128)
            &&& h.net is None ==> m.src == Addr::V4(0) && m.dst == Addr::V4(0)
            &&& m.inbound <==> !local.contains(m.src)
        }),
{
}

/// Where the transport header of a frame goes: TCP and UDP with their ports, source
/// first, ICMP of either version without, and all else as other.
pub proof fn lemma_meta_transport(h: Headers, wire_len: u32, local: Seq<Addr>)
    ensures
        ({
            let m = meta_of(h, wire_len, local);
            &&& h.transport matches Some(Transport::Tcp(s, d)) ==> m.l4 == L4::Tcp && m.sport == s
                && m.dport == d
            &&& h.transport matches Some(Transport::Udp(s, d)) ==> m.l4 == L4::Udp && m.sport == s
                && m.dport == d
            &&& h.transport == Some(Transport::Icmpv4) || h.transport == Some(Transport::Icmpv6)
                ==> m.l4 == L4::Icmp && m.sport == 0 && m.dport == 0
            &&& h.transport is None || h.transport->0 is Unknown ==> m.l4 == L4::Other && m.sport == 0
                && m.dport == 0
        }),
{
}

/// Without local addresses all traffic counts as inbound.
pub proof fn lemma_no_local_address(h: Headers, wire_len: u32)
    ensures
        meta_of(h, wire_len, Seq::empty()).inbound,
{
}

fn contains_addr(list: &Vec<Addr>, addr: Addr) -> (r: bool)
    ensures
        r == list@.contains(addr),
{
    let mut i: usize = 0;
    while i < list.len()
        invariant
            i <= list@.len(),
            forall|j: int| 0 <= j < i ==> list@[j] != addr,
        decreases list@.len() - i,
    {
        if list[i] == addr {
            return true;
        }
        i += 1;
    }
    false
}

/// The metadata of a frame whose headers are known.
pub fn meta_from_headers(h: &Headers, wire_len: u32, local: &Vec<Addr>) -> (r: PacketMeta)
    ensures
        r == meta_of(*h, wire_len, local@),
{
    let (src, dst) = match h.net {
        Some(Endpoints::V4(s, d)) => (Addr::V4(be_u32(s)), Addr::V4(be_u32(d))),
        Some(Endpoints::V6(s, d)) => (Addr::V6(be_u128(s)), Addr::V6(be_u128(d))),
        None => (Addr::V4(0), Addr::V4(0)),
    };
    let (l4, sport, dport) = match h.transport {
        Some(Transport::Tcp(s, d)) => (L4::Tcp, s, d),
        Some(Transport::Udp(s, d)) => (L4::Udp, s, d),
        Some(Transport::Icmpv4) | Some(Transport::Icmpv6) => (L4::Icmp, 0, 0),
        Some(Transport::Unknown(_)) | None => (L4::Other, 0, 0),
    };
    let ethertype: u16 = match h.ether_type {
        Some(t) => t,
        None => 0,
    };
    let inbound = !contains_addr(local, src);
    PacketMeta { len: wire_len, src, dst, sport, dport, l4, ethertype, inbound }
}

/// Parse one packet into the minimal metadata the visualiser needs.
///
/// This stays at Ethernet, IP and transport headers and never depends on
/// payload bytes. A frame that cannot be sliced has no metadata.
pub fn parse(data: &[u8], wire_len: u32, local: &Vec<Addr>) -> (r: Option<PacketMeta>)
    ensures
        r == metadata_of(ethernet_headers(data@), wire_len, local@),
        data@.len() < 14 ==> r is None,
        data@.len() >= 14 && !has_inner_header(be_value(data@.subrange(12, 14))) ==> r == Some(
            PacketMeta {
                len: wire_len,
                src: Addr::V4(0),
                dst: Addr::V4(0),
                sport: 0,
                dport: 0,
                l4: L4::Other,
                ethertype: be_value(data@.subrange(12, 14)) as u16,
                inbound: !local@.contains(Addr::V4(0)),
            },
        ),
        r matches Some(m) ==> m.ethertype == be_value(data@.subrange(12, 14)),
        r matches Some(m) ==> m.ethertype == 0x0800 ==> data@.len() >= 34 && m.src == Addr::V4(
            be_value(data@.subrange(26, 30)) as u32,
        ) && m.dst == Addr::V4(be_value(data@.subrange(30, 34)) as u32),
        r matches Some(m) ==> m.ethertype == 0x86dd ==> data@.len() >= 54 && m.src == Addr::V6(
            be_value(data@.subrange(22, 38)) as u128,
        ) && m.dst == Addr::V6(be_value(data@.subrange(38, 54)) as u128),
        plain_transport(data@) matches Some(t) ==> (r matches Some(m) && (m.l4, m.sport, m.dport)
            == transport_of(t)),
        r matches Some(m) ==> m.len == wire_len && m.inbound == !local@.contains(m.src),
{
    match slice_ethernet(data) {
        Some(h) => Some(meta_from_headers(&h, wire_len, local)),
        None => None,
    }
}

// ---------------------------------------------------------------- loop

/// What became of metadata that was handed to the display.
#[derive(Copy, Clone, Debug, PartialEq, Eq, Structural)]
pub enum Delivery {
    Queued,
    /// The queue is full.
    Dropped,
    /// Nobody receives any more.
    Disconnected,
}

/// What the capture thread has just learnt.
#[derive(Copy, Clone, Debug, PartialEq, Eq, Structural)]
pub enum CaptureEvent {
    /// Whether the interface could be opened.
    Opened(bool),
    /// Whether the filter could be compiled.
    Filtered(bool),
    /// A packet, with the metadata found in it.
    Packet(Option<PacketMeta>),
    Delivered(Delivery),
    /// No packet in time.
    TimedOut,
    /// The capture broke down.
    Failed,
}

/// What the capture thread does next.
#[derive(Copy, Clone, Debug, PartialEq, Eq, Structural)]
pub enum CaptureAction {
    CompileFilter,
    NextPacket,
    /// Hand metadata to the display, without waiting.
    Deliver(PacketMeta),
    /// Report that the interface cannot be opened, and end the program.
    RefuseInterface,
    /// Report that the filter is bad, and end the program.
    RefuseFilter,
    /// Report the error, and end the thread.
    Report,
    /// End the thread.
    End,
}

/// The next action of the capture thread.
pub open spec fn capture_action(event: CaptureEvent, has_filter: bool) -> CaptureAction {
    match event {
        CaptureEvent::Opened(false) => CaptureAction::RefuseInterface,
        CaptureEvent::Opened(true) => if has_filter {
            CaptureAction::CompileFilter
        } else {
            CaptureAction::NextPacket
        },
        CaptureEvent::Filtered(false) => CaptureAction::RefuseFilter,
        CaptureEvent::Filtered(true) => CaptureAction::NextPacket,
        CaptureEvent::Packet(Some(meta)) => CaptureAction::Deliver(meta),
        CaptureEvent::Packet(None) => CaptureAction::NextPacket,
        CaptureEvent::Delivered(Delivery::Disconnected) => CaptureAction::End,
        CaptureEvent::Delivered(_) => CaptureAction::NextPacket,
        CaptureEvent::TimedOut => CaptureAction::NextPacket,
        CaptureEvent::Failed => CaptureAction::Report,
    }
}

/// Decide the next action of the capture thread. A failure to set up is fatal: a
/// display without a capture would be idle for ever.
pub fn capture_next(event: CaptureEvent, has_filter: bool) -> (r: CaptureAction)
    ensures
        r == capture_action(event, has_filter),
{
    match event {
        CaptureEvent::Opened(ok) => if !ok {
            CaptureAction::RefuseInterface
        } else if has_filter {
            CaptureAction::CompileFilter
        } else {
            CaptureAction::NextPacket
        },
        CaptureEvent::Filtered(ok) => if ok {
            CaptureAction::NextPacket
        } else {
            CaptureAction::RefuseFilter
        },
        CaptureEvent::Packet(Some(meta)) => CaptureAction::Deliver(meta),
        CaptureEvent::Packet(None) => CaptureAction::NextPacket,
        CaptureEvent::Delivered(Delivery::Disconnected) => CaptureAction::End,
        CaptureEvent::Delivered(_) => CaptureAction::NextPacket,
        CaptureEvent::TimedOut => CaptureAction::NextPacket,
        CaptureEvent::Failed => CaptureAction::Report,
    }
}

/// When the capture thread does what: it delivers exactly the packets that have
/// metadata, unchanged; it refuses exactly what could not be set up; it compiles a
/// filter exactly if there is one; it ends when nobody receives and reports when
/// the capture fails; and it goes on to the next packet in all other cases.
pub proof fn lemma_capture_outcomes(event: CaptureEvent, has_filter: bool, meta: PacketMeta)
    ensures
        ({
            let action = capture_action(event, has_filter);
            &&& action == CaptureAction::Deliver(meta) <==> event == CaptureEvent::Packet(Some(meta))
            &&& action is Deliver <==> (event matches CaptureEvent::Packet(p) && p is Some)
            &&& action is RefuseInterface <==> event == CaptureEvent::Opened(false)
            &&& action is RefuseFilter <==> event == CaptureEvent::Filtered(false)
            &&& action is CompileFilter <==> event == CaptureEvent::Opened(true) && has_filter
            &&& action is End <==> event == CaptureEvent::Delivered(Delivery::Disconnected)
            &&& action is Report <==> event == CaptureEvent::Failed
        }),
{
}

/// If the display cannot keep up, packets are dropped and capture goes on. Once
/// it runs, it ends only when nobody receives or when it breaks down, and it
/// hands out only what was parsed.
pub proof fn lemma_capture_goes_on(event: CaptureEvent, has_filter: bool)
    requires
        !(event is Opened),
        !(event is Filtered),
    ensures
        capture_action(event, has_filter) == CaptureAction::NextPacket || (event matches CaptureEvent::Packet(
            Some(meta),
        ) && capture_action(event, has_filter) == CaptureAction::Deliver(meta)) || event
            == CaptureEvent::Delivered(Delivery::Disconnected) || event == CaptureEvent::Failed,
        capture_action(CaptureEvent::Delivered(Delivery::Dropped), has_filter) == CaptureAction::NextPacket,
{
}

/// What is reported when an interface cannot be opened.
pub fn open_failure_text(iface: &str, error: &str) -> (r: String)
    ensures
        r@ == "error: cannot open '"@ + iface@ + "' for capture: "@ + error@
            + "\nhint:  run with sudo, or grant the binary capture rights:"@
            + "\n       sudo setcap cap_net_raw,cap_net_admin+ep ./netspectrum"@,
{
    let mut r = "error: cannot open '".to_owned();
    r.append(iface);
    r.append("' for capture: ");
    r.append(error);
    r.append("\nhint:  run with sudo, or grant the binary capture rights:");
    r.append("\n       sudo setcap cap_net_raw,cap_net_admin+ep ./netspectrum");
    r
}

/// What is reported when a filter cannot be compiled.
pub fn filter_failure_text(filter: &str, error: &str) -> (r: String)
    ensures
        r@ == "error: bad BPF filter '"@ + filter@ + "': "@ + error@,
{
    let mut r = "error: bad BPF filter '".to_owned();
    r.append(filter);
    r.append("': ");
    r.append(error);
    r
}

} // verus!

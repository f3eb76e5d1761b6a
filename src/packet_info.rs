use vstd::prelude::*;
use crate::symbol_table::SymbolTable;
use crate::value::{PacketField, PacketInfo, PacketMap, Variable};
use pnet::packet::ethernet::EthernetPacket;
use pnet::packet::ipv4::Ipv4Packet;
use pnet::packet::tcp::TcpPacket;
use pnet::packet::udp::UdpPacket;
use pnet::packet::Packet;

verus! {

/// Ethertype of IPv4.
pub const ETHERTYPE_IPV4: u16 = 0x0800;

/// Ethertype of IPv6.
pub const ETHERTYPE_IPV6: u16 = 0x86DD;

/// IPv4 protocol number of TCP.
pub const PROTO_TCP: u8 = 6;

/// IPv4 protocol number of UDP.
pub const PROTO_UDP: u8 = 17;

/// ACK bit of the TCP flags byte.
pub const TCP_ACK: u8 = 0b0001_0000;

/// SYN bit of the TCP flags byte.
pub const TCP_SYN: u8 = 0b0000_0010;

/// FIN bit of the TCP flags byte.
pub const TCP_FIN: u8 = 0b0000_0001;

/// Why a frame could not be classified at all.
#[derive(Clone, Copy, PartialEq, Eq, Structural, Debug)]
pub enum ExtractError {
    /// The frame carries IPv6, which is not supported yet.
    Ipv6Unimplemented,
}

/// Big-endian 16-bit number at `at`.
pub open spec fn be16(b: Seq<u8>, at: int) -> int {
    b[at] as int * 256 + b[at + 1] as int
}

/// Big-endian 32-bit number at `at`.
pub open spec fn be32(b: Seq<u8>, at: int) -> int {
    be16(b, at) * 65536 + be16(b, at + 2)
}

/// The transport segment that an IPv4 packet carries (after its header and
/// options, bounded by its total length).
pub uninterp spec fn ipv4_payload_of(packet: Seq<u8>) -> Seq<u8>;

/// Relies on pnet's `EthernetPacket::new` (which refuses fewer than 14 bytes),
/// `get_ethertype` (bytes 12 and 13, big-endian) and `payload` (the bytes after
/// the 14-byte header).
#[verifier::external_body]
fn ethernet_header(frame: &[u8]) -> (r: Option<(u16, Vec<u8>)>)
    ensures
        r is Some <==> frame@.len() >= 14,
        r is Some ==> r->Some_0.0 as int == be16(frame@, 12),
        r is Some ==> r->Some_0.1@ == frame@.subrange(14, frame@.len() as int),
{
    match EthernetPacket::new(frame) {
        Some(p) => Some((p.get_ethertype().0, p.payload().to_vec())),
        None => None,
    }
}

/// Relies on pnet's `Ipv4Packet::new` (which refuses fewer than 20 bytes),
/// `get_source` and `get_destination` (bytes 12..16 and 16..20),
/// `get_next_level_protocol` (byte 9) and `payload`.
#[verifier::external_body]
fn ipv4_header(packet: &[u8]) -> (r: Option<(u32, u32, u8, Vec<u8>)>)
    ensures
        r is Some <==> packet@.len() >= 20,
        r is Some ==> r->Some_0.0 as int == be32(packet@, 12),
        r is Some ==> r->Some_0.1 as int == be32(packet@, 16),
        r is Some ==> r->Some_0.2 == packet@[9],
        r is Some ==> r->Some_0.3@ == ipv4_payload_of(packet@),
{
    match Ipv4Packet::new(packet) {
        Some(h) => Some((
            u32::from(h.get_source()),
            u32::from(h.get_destination()),
            h.get_next_level_protocol().0,
            h.payload().to_vec(),
        )),
        None => None,
    }
}

/// Relies on pnet's `TcpPacket::new` (which refuses fewer than 20 bytes),
/// `get_source`, `get_destination` (bytes 0..2 and 2..4) and `get_flags` (byte 13).
#[verifier::external_body]
fn tcp_header(segment: &[u8]) -> (r: Option<(u16, u16, u8)>)
    ensures
        r is Some <==> segment@.len() >= 20,
        r is Some ==> r->Some_0.0 as int == be16(segment@, 0),
        r is Some ==> r->Some_0.1 as int == be16(segment@, 2),
        r is Some ==> r->Some_0.2 == segment@[13],
{
    match TcpPacket::new(segment) {
        Some(h) => Some((h.get_source(), h.get_destination(), h.get_flags())),
        None => None,
    }
}

/// Relies on pnet's `UdpPacket::new` (which refuses fewer than 8 bytes),
/// `get_source` and `get_destination` (bytes 0..2 and 2..4).
#[verifier::external_body]
fn udp_header(segment: &[u8]) -> (r: Option<(u16, u16)>)
    ensures
        r is Some <==> segment@.len() >= 8,
        r is Some ==> r->Some_0.0 as int == be16(segment@, 0),
        r is Some ==> r->Some_0.1 as int == be16(segment@, 2),
{
    match UdpPacket::new(segment) {
        Some(h) => Some((h.get_source(), h.get_destination())),
        None => None,
    }
}

/// What the transport layer adds to the facts `m`, and whether it was classified.
pub open spec fn transport_spec(proto: u8, seg: Seq<u8>, m: Map<PacketField, PacketInfo>) -> (bool, Map<PacketField, PacketInfo>) {
    if proto == PROTO_TCP {
        if seg.len() < 20 {
            (false, m)
        } else {
            let flags = seg[13];
            (true, m.insert(PacketField::Sport, PacketInfo::Port(Some(be16(seg, 0) as u32)))
                .insert(PacketField::Dport, PacketInfo::Port(Some(be16(seg, 2) as u32)))
                .insert(PacketField::FlagTcp, PacketInfo::Flag(true))
                .insert(PacketField::FlagUdp, PacketInfo::Flag(false))
                .insert(PacketField::FlagAck, PacketInfo::Flag(flags & TCP_ACK != 0))
                .insert(PacketField::FlagSyn, PacketInfo::Flag(flags & TCP_SYN != 0))
                .insert(PacketField::FlagFin, PacketInfo::Flag(flags & TCP_FIN != 0)))
        }
    } else if proto == PROTO_UDP {
        if seg.len() < 8 {
            (false, m)
        } else {
            (true, m.insert(PacketField::Sport, PacketInfo::Port(Some(be16(seg, 0) as u32)))
                .insert(PacketField::Dport, PacketInfo::Port(Some(be16(seg, 2) as u32)))
                .insert(PacketField::FlagTcp, PacketInfo::Flag(false))
                .insert(PacketField::FlagUdp, PacketInfo::Flag(true))
                .insert(PacketField::FlagAck, PacketInfo::Flag(false))
                .insert(PacketField::FlagSyn, PacketInfo::Flag(false))
                .insert(PacketField::FlagFin, PacketInfo::Flag(false)))
        }
    } else {
        (false, m.insert(PacketField::Sport, PacketInfo::Port(None))
            .insert(PacketField::Dport, PacketInfo::Port(None))
            .insert(PacketField::FlagTcp, PacketInfo::Flag(false))
            .insert(PacketField::FlagUdp, PacketInfo::Flag(false))
            .insert(PacketField::FlagAck, PacketInfo::Flag(false))
            .insert(PacketField::FlagSyn, PacketInfo::Flag(false))
            .insert(PacketField::FlagFin, PacketInfo::Flag(false)))
    }
}

/// Records the facts of a transport segment carried under protocol number
/// `proto`: ports and flags of TCP, ports of UDP (no flags), and for any other
/// protocol absent ports and clear flags. Returns whether the segment was TCP or
/// UDP with a complete header.
pub fn transport_facts(proto: u8, segment: &[u8], table: &mut PacketMap) -> (r: bool)
    requires
        old(table).wf(),
    ensures
        final(table).wf(),
        (r, final(table)@) == transport_spec(proto, segment@, old(table)@),
{
    if proto == PROTO_TCP {
        match tcp_header(segment) {
            Some((sport, dport, flags)) => {
                table.insert(PacketField::Sport, PacketInfo::Port(Some(sport as u32)));
                table.insert(PacketField::Dport, PacketInfo::Port(Some(dport as u32)));
                table.insert(PacketField::FlagTcp, PacketInfo::Flag(true));
                table.insert(PacketField::FlagUdp, PacketInfo::Flag(false));
                table.insert(PacketField::FlagAck, PacketInfo::Flag(flags & TCP_ACK != 0));
                table.insert(PacketField::FlagSyn, PacketInfo::Flag(flags & TCP_SYN != 0));
                table.insert(PacketField::FlagFin, PacketInfo::Flag(flags & TCP_FIN != 0));
                true
            },
            None => false,
        }
    } else if proto == PROTO_UDP {
        match udp_header(segment) {
            Some((sport, dport)) => {
                table.insert(PacketField::Sport, PacketInfo::Port(Some(sport as u32)));
                table.insert(PacketField::Dport, PacketInfo::Port(Some(dport as u32)));
                table.insert(PacketField::FlagTcp, PacketInfo::Flag(false));
                table.insert(PacketField::FlagUdp, PacketInfo::Flag(true));
                table.insert(PacketField::FlagAck, PacketInfo::Flag(false));
                table.insert(PacketField::FlagSyn, PacketInfo::Flag(false));
                table.insert(PacketField::FlagFin, PacketInfo::Flag(false));
                true
            },
            None => false,
        }
    } else {
        table.insert(PacketField::Sport, PacketInfo::Port(None));
        table.insert(PacketField::Dport, PacketInfo::Port(None));
        table.insert(PacketField::FlagTcp, PacketInfo::Flag(false));
        table.insert(PacketField::FlagUdp, PacketInfo::Flag(false));
        table.insert(PacketField::FlagAck, PacketInfo::Flag(false));
        table.insert(PacketField::FlagSyn, PacketInfo::Flag(false));
        table.insert(PacketField::FlagFin, PacketInfo::Flag(false));
        false
    }
}

/// What extraction does with a frame and the facts `m`.
pub open spec fn extraction_spec(frame: Seq<u8>, m: Map<PacketField, PacketInfo>) -> (Result<bool, ExtractError>, Map<PacketField, PacketInfo>) {
    if frame.len() < 14 {
        (Ok(false), m)
    } else if be16(frame, 12) == ETHERTYPE_IPV6 {
        (Err(ExtractError::Ipv6Unimplemented), m)
    } else if be16(frame, 12) != ETHERTYPE_IPV4 {
        (Ok(false), m)
    } else {
        let ip = frame.subrange(14, frame.len() as int);
        if ip.len() < 20 {
            (Ok(false), m)
        } else {
            let m1 = m.insert(PacketField::Sip, PacketInfo::IP(Some(be32(ip, 12) as u32)))
                .insert(PacketField::Dip, PacketInfo::IP(Some(be32(ip, 16) as u32)));
            let t = transport_spec(ip[9], ipv4_payload_of(ip), m1);
            (Ok(t.0), t.1)
        }
    }
}

/// Fills `table` with the facts of an Ethernet frame. IPv4 frames get their
/// source and destination addresses and then their transport facts; the result
/// is `Ok(true)` only for TCP or UDP. A frame of another ethertype, or too short
/// for its headers, gives `Ok(false)`; an IPv6 frame gives an error of its own.
pub fn extract_packet_info(frame: &[u8], table: &mut PacketMap) -> (r: Result<bool, ExtractError>)
    requires
        old(table).wf(),
    ensures
        final(table).wf(),
        (r, final(table)@) == extraction_spec(frame@, old(table)@),
{
    match ethernet_header(frame) {
        None => Ok(false),
        Some((ethertype, payload)) => {
            if ethertype == ETHERTYPE_IPV6 {
                Err(ExtractError::Ipv6Unimplemented)
            } else if ethertype != ETHERTYPE_IPV4 {
                Ok(false)
            } else {
                match ipv4_header(payload.as_slice()) {
                    None => Ok(false),
                    Some((source, destination, proto, segment)) => {
                        table.insert(PacketField::Sip, PacketInfo::IP(Some(source)));
                        table.insert(PacketField::Dip, PacketInfo::IP(Some(destination)));
                        Ok(transport_facts(proto, segment.as_slice(), table))
                    },
                }
            }
        },
    }
}

/// A table in which `"f"` is bound to the facts of the current frame.
pub fn init_table(packet_map: PacketMap) -> (r: SymbolTable)
    ensures
        r.wf(),
        r@ == Map::<Seq<char>, Variable>::empty().insert(seq!['f'], Variable::Packet(packet_map)),
{
    crate::symbol_table::init_table(packet_map)
}

} // verus!

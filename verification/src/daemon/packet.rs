//! Reading source address and destination port off captured Ethernet frames.

use pnet_packet::ethernet::EthernetPacket;
use pnet_packet::ipv4::Ipv4Packet;
use pnet_packet::ipv6::Ipv6Packet;
use pnet_packet::udp::UdpPacket;
use pnet_packet::Packet;
use vstd::prelude::*;

use crate::address::IpAddr;
use crate::sequence;

verus! {

/// The EtherType of IPv4.
pub const ETHERTYPE_IPV4: u16 = 0x0800;

/// The EtherType of IPv6.
pub const ETHERTYPE_IPV6: u16 = 0x86DD;

/// The protocol number of UDP.
pub const PROTOCOL_UDP: u8 = 17;

/// The number that two bytes write big-endian.
pub open spec fn u16_at(data: Seq<u8>, i: int) -> int {
    data[i] * 256 + data[i + 1]
}

/// What follows a header: the bytes from `start` on, `len` of them at most.
pub open spec fn payload_of(data: Seq<u8>, start: int, len: int) -> Seq<u8> {
    if data.len() <= start {
        seq![]
    } else if start + len < data.len() {
        data.subrange(start, start + len)
    } else {
        data.skip(start)
    }
}

/// The length of an IPv4 header in bytes, as its first byte gives it.
pub open spec fn ipv4_header_len(data: Seq<u8>) -> int {
    (data[0] % 16) * 4
}

/// The payload of an IPv4 packet. It begins no earlier than after the fixed header.
pub open spec fn ipv4_payload(data: Seq<u8>) -> Seq<u8> {
    let header = ipv4_header_len(data);
    let total = u16_at(data, 2);
    payload_of(
        data,
        if header > 20 { header } else { 20 },
        if total > header { total - header } else { 0 },
    )
}

/// The payload of an IPv6 packet.
pub open spec fn ipv6_payload(data: Seq<u8>) -> Seq<u8> {
    payload_of(data, 40, u16_at(data, 4))
}

/// The destination port of a UDP datagram.
pub open spec fn udp_port(data: Seq<u8>) -> Option<u16> {
    if data.len() < 8 {
        None
    } else {
        Some(u16_at(data, 2) as u16)
    }
}

/// Source address and destination port of a UDP datagram in an IPv4 packet.
pub open spec fn ipv4_udp(data: Seq<u8>) -> Option<(IpAddr, u16)> {
    if data.len() < 20 || data[9] != PROTOCOL_UDP {
        None
    } else {
        match udp_port(ipv4_payload(data)) {
            Some(port) => Some(
                (IpAddr::V4(sequence::be_value(data.subrange(12, 16)) as u32), port),
            ),
            None => None,
        }
    }
}

/// Source address and destination port of a UDP datagram in an IPv6 packet.
pub open spec fn ipv6_udp(data: Seq<u8>) -> Option<(IpAddr, u16)> {
    if data.len() < 40 || data[6] != PROTOCOL_UDP {
        None
    } else {
        match udp_port(ipv6_payload(data)) {
            Some(port) => Some(
                (IpAddr::V6(sequence::be_value(data.subrange(8, 24)) as u128), port),
            ),
            None => None,
        }
    }
}

/// Source address and destination port of a UDP datagram in an Ethernet frame.
pub open spec fn frame_udp(data: Seq<u8>) -> Option<(IpAddr, u16)> {
    if data.len() < 14 {
        None
    } else if u16_at(data, 12) == ETHERTYPE_IPV4 {
        ipv4_udp(data.skip(14))
    } else if u16_at(data, 12) == ETHERTYPE_IPV6 {
        ipv6_udp(data.skip(14))
    } else {
        None
    }
}

/// Calls `new`, `get_ethertype` and `payload` of `EthernetPacket`. A frame has 14 bytes at
/// least; bytes 12 and 13 are its EtherType, and its payload is what follows them.
#[verifier::external_body]
fn ethernet_parts(data: &[u8]) -> (parts: Option<(u16, Vec<u8>)>)
    ensures
        parts is Some <==> data@.len() >= 14,
        parts matches Some((ethertype, payload)) ==> {
            &&& ethertype == u16_at(data@, 12)
            &&& payload@ == data@.skip(14)
        },
{
    match EthernetPacket::new(data) {
        Some(frame) => Some((frame.get_ethertype().0, frame.payload().to_vec())),
        None => None,
    }
}

/// Calls `new`, `get_next_level_protocol`, `get_source` and `payload` of `Ipv4Packet`. A
/// packet has 20 bytes at least; byte 9 is its protocol, bytes 12 to 15 are its source,
/// and its payload lies between its header length and its total length, as far as the
/// bytes go.
#[verifier::external_body]
fn ipv4_parts(data: &[u8]) -> (parts: Option<(u8, u32, Vec<u8>)>)
    ensures
        parts is Some <==> data@.len() >= 20,
        parts matches Some((protocol, source, payload)) ==> {
            &&& protocol == data@[9]
            &&& source == sequence::be_value(data@.subrange(12, 16))
            &&& payload@ == ipv4_payload(data@)
        },
{
    match Ipv4Packet::new(data) {
        Some(packet) => Some((
            packet.get_next_level_protocol().0,
            u32::from(packet.get_source()),
            packet.payload().to_vec(),
        )),
        None => None,
    }
}

/// Calls `new`, `get_next_header`, `get_source` and `payload` of `Ipv6Packet`. A packet
/// has 40 bytes at least; byte 6 is its next header, bytes 8 to 23 are its source, and its
/// payload is as many of the bytes from 40 on as bytes 4 and 5 say, as far as they go.
#[verifier::external_body]
fn ipv6_parts(data: &[u8]) -> (parts: Option<(u8, u128, Vec<u8>)>)
    ensures
        parts is Some <==> data@.len() >= 40,
        parts matches Some((protocol, source, payload)) ==> {
            &&& protocol == data@[6]
            &&& source == sequence::be_value(data@.subrange(8, 24))
            &&& payload@ == ipv6_payload(data@)
        },
{
    match Ipv6Packet::new(data) {
        Some(packet) => Some((
            packet.get_next_header().0,
            u128::from(packet.get_source()),
            packet.payload().to_vec(),
        )),
        None => None,
    }
}

/// Calls `new` and `get_destination` of `UdpPacket`. A datagram has 8 bytes at least; bytes
/// 2 and 3 are its destination port.
#[verifier::external_body]
fn udp_destination(data: &[u8]) -> (port: Option<u16>)
    ensures
        port == udp_port(data@),
{
    match UdpPacket::new(data) {
        Some(datagram) => Some(datagram.get_destination()),
        None => None,
    }
}

/// Reads source address and destination port off an Ethernet frame, if it holds a UDP
/// datagram over IPv4 or IPv6.
pub fn parse_udp(data: &[u8]) -> (found: Option<(IpAddr, u16)>)
    ensures
        found == frame_udp(data@),
{
    match ethernet_parts(data) {
        None => None,
        Some((ethertype, packet)) => {
            if ethertype == ETHERTYPE_IPV4 {
                match ipv4_parts(packet.as_slice()) {
                    None => None,
                    Some((protocol, source, datagram)) => {
                        if protocol != PROTOCOL_UDP {
                            return None;
                        }
                        match udp_destination(datagram.as_slice()) {
                            None => None,
                            Some(port) => Some((IpAddr::V4(source), port)),
                        }
                    },
                }
            } else if ethertype == ETHERTYPE_IPV6 {
                match ipv6_parts(packet.as_slice()) {
                    None => None,
                    Some((protocol, source, datagram)) => {
                        if protocol != PROTOCOL_UDP {
                            return None;
                        }
                        match udp_destination(datagram.as_slice()) {
                            None => None,
                            Some(port) => Some((IpAddr::V6(source), port)),
                        }
                    },
                }
            } else {
                None
            }
        },
    }
}

/// The first 82 bytes of a frame, which hold the longest headers, decide what is read off
/// it, so a capture may cut frames off behind them.
pub proof fn law_headers_suffice(data: Seq<u8>, n: int)
    requires
        82 <= n <= data.len(),
    ensures
        frame_udp(data.take(n)) == frame_udp(data),
{
    let cut = data.take(n).skip(14);
    let packet = data.skip(14);
    assert(cut.subrange(12, 16) =~= packet.subrange(12, 16));
    assert(cut.subrange(8, 24) =~= packet.subrange(8, 24));
}

/// A UDP datagram over IPv4 is found: the source is the four bytes of the address, and the
/// port the two bytes at the third place of the datagram, which begins behind the header and
/// its options and has eight bytes at least.
pub proof fn law_udp_over_ipv4_is_found(data: Seq<u8>, header: int)
    requires
        data.len() >= 34,
        data[12] == 0x08,
        data[13] == 0x00,
        header == if data[14] % 16 > 5 {
            4 * (data[14] % 16)
        } else {
            20
        },
        data[23] == 17,
    ensures
        ({
            let total = 256 * data[16] + data[17];
            let whole = data.len() >= 14 + header + 8 && total >= 4 * (data[14] % 16) + 8;
            frame_udp(data) == if whole {
                Some(
                    (
                        IpAddr::V4(
                            (0x100_0000 * data[26] + 0x1_0000 * data[27] + 0x100 * data[28]
                                + data[29]) as u32,
                        ),
                        (256 * data[14 + header + 2] + data[14 + header + 3]) as u16,
                    ),
                )
            } else {
                None
            }
        }),
{
    let packet = data.skip(14);
    let source = packet.subrange(12, 16);
    assert(sequence::be_value(source) == 0x100_0000 * data[26] + 0x1_0000 * data[27] + 0x100
        * data[28] + data[29]) by {
        reveal_with_fuel(sequence::be_value, 5);
    }
}

/// A UDP datagram over IPv6 is found: the source is the sixteen bytes of the address, and the
/// port the two bytes at the third place of the datagram, which begins behind the header of
/// forty bytes and has eight bytes at least.
pub proof fn law_udp_over_ipv6_is_found(data: Seq<u8>)
    requires
        data.len() >= 54,
        data[12] == 0x86,
        data[13] == 0xDD,
        data[20] == 17,
    ensures
        ({
            let whole = data.len() >= 62 && 256 * data[18] + data[19] >= 8;
            if whole {
                &&& frame_udp(data) matches Some((IpAddr::V6(source), port))
                &&& source == 0x1_0000_0000_0000_0000 * (0x100_0000_0000_0000 * data[22]
                    + 0x1_0000_0000_0000 * data[23] + 0x100_0000_0000 * data[24] + 0x1_0000_0000
                    * data[25] + 0x100_0000 * data[26] + 0x1_0000 * data[27] + 0x100 * data[28]
                    + data[29]) + (0x100_0000_0000_0000 * data[30] + 0x1_0000_0000_0000
                    * data[31] + 0x100_0000_0000 * data[32] + 0x1_0000_0000 * data[33]
                    + 0x100_0000 * data[34] + 0x1_0000 * data[35] + 0x100 * data[36] + data[37])
                &&& port == 256 * data[56] + data[57]
            } else {
                frame_udp(data) is None
            }
        }),
{
    let packet = data.skip(14);
    let source = packet.subrange(8, 24);
    assert(sequence::be_value(source) == 0x1_0000_0000_0000_0000 * (0x100_0000_0000_0000 * data[22]
        + 0x1_0000_0000_0000 * data[23] + 0x100_0000_0000 * data[24] + 0x1_0000_0000 * data[25]
        + 0x100_0000 * data[26] + 0x1_0000 * data[27] + 0x100 * data[28] + data[29]) + (
    0x100_0000_0000_0000 * data[30] + 0x1_0000_0000_0000 * data[31] + 0x100_0000_0000 * data[32]
        + 0x1_0000_0000 * data[33] + 0x100_0000 * data[34] + 0x1_0000 * data[35] + 0x100 * data[36]
        + data[37])) by {
        reveal_with_fuel(sequence::be_value, 17);
    }
}

/// Nothing else is found: neither in other frames, nor in what is cut off within a header,
/// nor in other datagrams.
pub proof fn law_only_udp_is_found(data: Seq<u8>)
    requires
        frame_udp(data) is Some,
    ensures
        data.len() >= 14,
        (data[12] == 0x08 && data[13] == 0x00 && data.len() >= 34 && data[23] == 17) || (data[12]
            == 0x86 && data[13] == 0xDD && data.len() >= 54 && data[20] == 17),
{
}

} // verus!

//! The packets as the engine reads them: the fields of an RTP packet, the
//! contents of the RTCP packets it understands, and what the bytes of a
//! datagram are taken for.

use vstd::prelude::*;
use crate::rtcp::is_compound;

verus! {

/// Where a datagram came from.
#[derive(Debug, Clone, Copy, PartialEq, Eq, Structural)]
pub struct Address {
    /// The IP address as a number; an IPv4 address in its IPv6-mapped form.
    pub ip: u128,
    pub port: u16,
}

/// What the engine reads of one RTP packet.
#[derive(Debug, Clone, Copy, PartialEq, Eq, Structural)]
pub struct RtpPacket {
    pub payload_type: u8,
    pub sequence_number: u16,
    pub timestamp: u32,
    pub ssrc: u32,
    /// Number of payload bytes, without header, extension and padding.
    pub payload_len: usize,
}

/// One reception report block of a sender or receiver report.
#[derive(Debug, Clone, Copy, PartialEq, Eq, Structural)]
pub struct ReportBlock {
    /// The source that the block reports on.
    pub ssrc: u32,
    pub fraction_lost: u8,
    pub cumulative_lost: u32,
    pub extended_sequence_number: u32,
    pub jitter: u32,
    /// Middle 32 bits of the NTP timestamp of the last sender report.
    pub last_sr_ntp_time: u32,
    /// Delay since that report, in units of 1/65536 s.
    pub delay_since_last_sr: u32,
}

/// The content of a sender report.
#[derive(Debug, Clone, Copy, PartialEq, Eq, Structural)]
pub struct SenderInfo {
    pub ntp_timestamp: u64,
    pub rtp_timestamp: u32,
    pub packet_count: u32,
    pub octet_count: u32,
}

/// The type of the source description item that holds the canonical name.
pub const SDES_CNAME: u8 = 1;

/// The format of payload-specific feedback that is a picture loss indication.
pub const PSFB_PLI: u8 = 1;

/// The format of payload-specific feedback that is a full intra request.
pub const PSFB_FIR: u8 = 4;

/// One RTCP packet of a compound packet, as far as the engine reads it.
#[derive(Debug, PartialEq, Eq)]
pub enum RtcpPacket {
    /// Sender report of `ssrc`.
    Sr { ssrc: u32, info: SenderInfo, report_blocks: Vec<ReportBlock> },
    /// Receiver report of `ssrc`.
    Rr { ssrc: u32, report_blocks: Vec<ReportBlock> },
    /// One item of the source description of `ssrc`: its type and its text.
    Sdes { ssrc: u32, item: u8, value: String },
    /// The sources of the list leave.
    Bye { ssrcs: Vec<u32> },
    /// Payload-specific feedback of the given format from `sender_ssrc`
    /// about `media_ssrc`; `ssrcs` are the sources that the entries of a
    /// full intra request name.
    PayloadFeedback { format: u8, sender_ssrc: u32, media_ssrc: u32, ssrcs: Vec<u32> },
    /// Anything else.
    Other,
}

/// An RTCP packet as contracts speak of it.
pub enum RtcpPacketView {
    Sr { ssrc: u32, info: SenderInfo, report_blocks: Seq<ReportBlock> },
    Rr { ssrc: u32, report_blocks: Seq<ReportBlock> },
    Sdes { ssrc: u32, item: u8, value: Seq<char> },
    Bye { ssrcs: Seq<u32> },
    PayloadFeedback { format: u8, sender_ssrc: u32, media_ssrc: u32, ssrcs: Seq<u32> },
    Other,
}

impl View for RtcpPacket {
    type V = RtcpPacketView;

    open spec fn view(&self) -> RtcpPacketView {
        match *self {
            RtcpPacket::Sr { ssrc, info, report_blocks } => RtcpPacketView::Sr {
                ssrc,
                info,
                report_blocks: report_blocks@,
            },
            RtcpPacket::Rr { ssrc, report_blocks } => RtcpPacketView::Rr {
                ssrc,
                report_blocks: report_blocks@,
            },
            RtcpPacket::Sdes { ssrc, item, value } => RtcpPacketView::Sdes {
                ssrc,
                item,
                value: value@,
            },
            RtcpPacket::Bye { ssrcs } => RtcpPacketView::Bye { ssrcs: ssrcs@ },
            RtcpPacket::PayloadFeedback { format, sender_ssrc, media_ssrc, ssrcs } => {
                RtcpPacketView::PayloadFeedback { format, sender_ssrc, media_ssrc, ssrcs: ssrcs@ }
            },
            RtcpPacket::Other => RtcpPacketView::Other,
        }
    }
}

/// The packets of a list as contracts speak of them.
pub open spec fn views(packets: Seq<RtcpPacket>) -> Seq<RtcpPacketView> {
    packets.map_values(|p: RtcpPacket| p@)
}

/// Number of contributing sources that the header announces.
pub open spec fn csrc_count(b: Seq<u8>) -> int {
    (b[0] & 0x0f) as int
}

/// Whether the header announces an extension.
pub open spec fn has_extension(b: Seq<u8>) -> bool {
    b[0] & 0x10 != 0
}

/// Whether the header announces padding.
pub open spec fn has_padding(b: Seq<u8>) -> bool {
    b[0] & 0x20 != 0
}

/// Where the header extension starts: behind the fixed header and the
/// contributing sources.
pub open spec fn extension_offset(b: Seq<u8>) -> int {
    12 + 4 * csrc_count(b)
}

/// Length of the extension's data in bytes, from its 16-bit word count.
pub open spec fn extension_len(b: Seq<u8>) -> int {
    let o = extension_offset(b);
    4 * ((b[o + 2] as int) * 256 + (b[o + 3] as int))
}

/// Where the payload starts.
pub open spec fn payload_offset(b: Seq<u8>) -> int {
    if has_extension(b) {
        extension_offset(b) + 4 + extension_len(b)
    } else {
        extension_offset(b)
    }
}

/// Number of padding bytes: the value of the last byte where the header
/// announces padding.
pub open spec fn padding_len(b: Seq<u8>) -> int {
    if has_padding(b) {
        b[b.len() - 1] as int
    } else {
        0
    }
}

/// Whether the bytes are an RTP packet: version 2, and contributing
/// sources, extension and padding all fit into the datagram.
pub open spec fn is_rtp(b: Seq<u8>) -> bool {
    &&& b.len() >= 12
    &&& b[0] & 0xc0 == 0x80
    &&& b.len() >= extension_offset(b)
    &&& has_extension(b) ==> b.len() >= extension_offset(b) + 4 && b.len() >= payload_offset(b)
    &&& has_padding(b) ==> b.len() >= payload_offset(b) + 1 && padding_len(b) != 0 && b.len()
        >= payload_offset(b) + padding_len(b)
}

/// The fields of the RTP packet that the bytes hold.
pub open spec fn rtp_fields(b: Seq<u8>) -> RtpPacket {
    RtpPacket {
        payload_type: b[1] & 0x7f,
        sequence_number: ((b[2] as int) * 0x100 + (b[3] as int)) as u16,
        timestamp: ((b[4] as int) * 0x100_0000 + (b[5] as int) * 0x1_0000 + (b[6] as int) * 0x100 + (
        b[7] as int)) as u32,
        ssrc: ((b[8] as int) * 0x100_0000 + (b[9] as int) * 0x1_0000 + (b[10] as int) * 0x100 + (
        b[11] as int)) as u32,
        payload_len: (b.len() - padding_len(b) - payload_offset(b)) as usize,
    }
}

/// Whether the first packet of the bytes, taken as a compound RTCP packet,
/// parses.
pub uninterp spec fn starts_with_rtcp(data: Seq<u8>) -> bool;

/// Parses an RTP packet with `rtp_types::RtpPacket::parse` and reads the
/// fields that the engine needs. The parser accepts exactly the datagrams
/// that `is_rtp` describes: at least the fixed header of 12 bytes, version
/// 2, and room for the contributing sources, the extension and the padding
/// that the header announces. The fields are those of the fixed header, in
/// network byte order; the payload is what lies between header and padding.
#[verifier::external_body]
fn parse_rtp(data: &[u8]) -> (r: Option<RtpPacket>)
    ensures
        r is Some <==> is_rtp(data@),
        r is Some ==> r->0 == rtp_fields(data@),
{
    match rtp_types::RtpPacket::parse(data) {
        Ok(p) => Some(
            RtpPacket {
                payload_type: p.payload_type(),
                sequence_number: p.sequence_number(),
                timestamp: p.timestamp(),
                ssrc: p.ssrc(),
                payload_len: p.payload().len(),
            },
        ),
        Err(_) => None,
    }
}

/// Asks `rtcp_types::Compound::parse` whether the bytes hold RTCP packets,
/// and whether the first of them parses. The answer depends on the bytes
/// alone. The parser takes only bytes that are not empty and that packets
/// fill, each with a header of four bytes and as long as its header says.
#[verifier::external_body]
fn parses_as_rtcp(data: &[u8]) -> (r: bool)
    ensures
        r == starts_with_rtcp(data@),
        r ==> is_compound(data@),
{
    match rtcp_types::Compound::parse(data) {
        Ok(mut compound) => match compound.next() {
            Some(first) => first.is_ok(),
            None => false,
        },
        Err(_) => false,
    }
}

/// What a datagram that arrived where RTP is expected is taken for.
#[derive(Debug, Clone, Copy, PartialEq, Eq, Structural)]
pub enum Datagram {
    /// An RTP packet.
    Rtp(RtpPacket),
    /// No RTP packet, but RTCP that was sent along the same path: it is
    /// handled as RTCP.
    Rtcp,
    /// Neither: it is dropped.
    Malformed,
}

/// What a datagram is taken for, given whether its start parses as RTCP.
pub open spec fn classified(data: Seq<u8>, rtcp: bool) -> Datagram {
    if is_rtp(data) {
        Datagram::Rtp(rtp_fields(data))
    } else if rtcp {
        Datagram::Rtcp
    } else {
        Datagram::Malformed
    }
}

/// Decides what a datagram is, once it is known whether it is an RTP packet
/// and whether its start parses as RTCP.
pub fn classify_parsed(rtp: Option<RtpPacket>, rtcp: bool) -> (r: Datagram)
    ensures
        r == (match rtp {
            Some(p) => Datagram::Rtp(p),
            None => if rtcp {
                Datagram::Rtcp
            } else {
                Datagram::Malformed
            },
        }),
{
    match rtp {
        Some(p) => Datagram::Rtp(p),
        None => if rtcp {
            Datagram::Rtcp
        } else {
            Datagram::Malformed
        },
    }
}

/// Decides what a datagram that arrived where RTP is expected is: an RTP
/// packet where it parses as one, else RTCP where its start parses as RTCP,
/// else malformed.
pub fn classify(data: &[u8]) -> (r: Datagram)
    ensures
        r == classified(data@, starts_with_rtcp(data@)),
        r is Rtcp ==> is_compound(data@),
{
    let rtp = parse_rtp(data);
    let rtcp = match rtp {
        Some(_) => false,
        None => parses_as_rtcp(data),
    };
    classify_parsed(rtp, rtcp)
}

/// Reads the fields of an RTP packet from its bytes; `None` where the
/// bytes are no RTP packet.
pub fn read_rtp(data: &[u8]) -> (r: Option<RtpPacket>)
    ensures
        r == (if is_rtp(data@) {
            Some(rtp_fields(data@))
        } else {
            None
        }),
{
    parse_rtp(data)
}

} // verus!

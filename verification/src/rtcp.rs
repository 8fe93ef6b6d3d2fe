//! RTCP packets as bytes: those that the engine sends, and those that it
//! receives.

use rtcp_types::{RtcpPacketParser, RtcpPacketParserExt, RtcpPacketWriter, RtcpPacketWriterExt};
use vstd::prelude::*;
use vstd::slice::slice_subrange;
use vstd::utf8::{decode_utf8, valid_utf8};
use crate::packet::{views, ReportBlock, RtcpPacket, RtcpPacketView, SenderInfo};

verus! {

/// Most report blocks that one report can carry.
pub const MAX_REPORT_BLOCKS: usize = 31;

/// Largest cumulative loss that a report block can carry: 24 bits.
pub const MAX_CUMULATIVE_LOST: u32 = 0xff_ffff;

/// The bytes of a sender report, where it can be written.
pub uninterp spec fn sender_report_bytes(
    ssrc: u32,
    info: SenderInfo,
    blocks: Seq<ReportBlock>,
) -> Option<Seq<u8>>;

/// The bytes of a receiver report, where it can be written.
pub uninterp spec fn receiver_report_bytes(ssrc: u32, blocks: Seq<ReportBlock>) -> Option<Seq<u8>>;

/// The bytes of a source description that gives `ssrc` its canonical name,
/// where it can be written.
pub uninterp spec fn cname_bytes(ssrc: u32, cname: Seq<char>) -> Option<Seq<u8>>;

/// The bytes of a goodbye packet, where it can be written.
pub uninterp spec fn bye_bytes(ssrcs: Seq<u32>, reason: Seq<char>) -> Option<Seq<u8>>;

/// The four bytes of a number in network byte order.
pub open spec fn be_bytes(x: u32) -> Seq<u8> {
    seq![
        (x / 0x100_0000) as u8,
        (x / 0x1_0000 % 0x100) as u8,
        (x / 0x100 % 0x100) as u8,
        (x % 0x100) as u8,
    ]
}

/// The bytes of a picture loss indication: the header of payload-specific
/// feedback of format 1 and three words, the source that sends it and the
/// source that it is about.
pub open spec fn pli_bytes(sender_ssrc: u32, media_ssrc: u32) -> Option<Seq<u8>> {
    Some(seq![0x81u8, 206u8, 0u8, 2u8] + be_bytes(sender_ssrc) + be_bytes(media_ssrc))
}

/// The bytes of a full intra request: the header of payload-specific
/// feedback of format 4 and five words, the source that sends it, no
/// source that it is about, and one entry with the source that is asked
/// and the number of the request.
pub open spec fn fir_bytes(sender_ssrc: u32, media_ssrc: u32, sequence: u8) -> Option<Seq<u8>> {
    Some(
        seq![0x84u8, 206u8, 0u8, 4u8] + be_bytes(sender_ssrc) + be_bytes(0) + be_bytes(media_ssrc)
            + seq![sequence, 0u8, 0u8, 0u8],
    )
}

/// Whether the blocks fit into one report: no more than 31, each with a
/// cumulative loss of no more than 24 bits.
pub open spec fn blocks_fit(blocks: Seq<ReportBlock>) -> bool {
    &&& blocks.len() <= MAX_REPORT_BLOCKS
    &&& forall|i: int| 0 <= i < blocks.len() ==> (#[trigger] blocks[i]).cumulative_lost
        <= MAX_CUMULATIVE_LOST
}

/// Whether the optional bytes are those of the optional vector.
pub open spec fn same_bytes(r: Option<Vec<u8>>, bytes: Option<Seq<u8>>) -> bool {
    match r {
        Some(v) => bytes == Some(v@),
        None => bytes is None,
    }
}

/// Writes a sender report with `rtcp_types::SenderReport::builder`. The
/// bytes depend on the arguments alone. The builder refuses more than 31
/// report blocks and a cumulative loss of more than 24 bits, and nothing
/// else; what it writes is the header and sender information of 28 bytes
/// and 24 bytes for each block.
#[verifier::external_body]
pub(crate) fn write_sender_report(ssrc: u32, info: &SenderInfo, blocks: &Vec<ReportBlock>) -> (r:
    Option<Vec<u8>>)
    ensures
        same_bytes(r, sender_report_bytes(ssrc, *info, blocks@)),
        r is Some <==> blocks_fit(blocks@),
        r is Some ==> r->0@.len() == 28 + 24 * blocks@.len(),
{
    let mut b = rtcp_types::SenderReport::builder(ssrc).ntp_timestamp(info.ntp_timestamp)
        .rtp_timestamp(info.rtp_timestamp).packet_count(info.packet_count)
        .octet_count(info.octet_count);
    for rb in blocks {
        let block = rtcp_types::ReportBlock::builder(rb.ssrc).fraction_lost(rb.fraction_lost)
            .cumulative_lost(rb.cumulative_lost).interarrival_jitter(rb.jitter)
            .extended_sequence_number(rb.extended_sequence_number)
            .last_sender_report_timestamp(rb.last_sr_ntp_time)
            .delay_since_last_sender_report_timestamp(rb.delay_since_last_sr);
        b = b.add_report_block(block);
    }
    let mut buf = vec![0u8; b.calculate_size().ok()?];
    b.write_into(&mut buf).ok()?;
    Some(buf)
}

/// Writes a receiver report with `rtcp_types::ReceiverReport::builder`.
/// The bytes depend on the arguments alone. The builder refuses more than
/// 31 report blocks and a cumulative loss of more than 24 bits, and nothing
/// else; what it writes is the header of 8 bytes and 24 bytes for each block.
#[verifier::external_body]
pub(crate) fn write_receiver_report(ssrc: u32, blocks: &Vec<ReportBlock>) -> (r: Option<Vec<u8>>)
    ensures
        same_bytes(r, receiver_report_bytes(ssrc, blocks@)),
        r is Some <==> blocks_fit(blocks@),
        r is Some ==> r->0@.len() == 8 + 24 * blocks@.len(),
{
    let mut b = rtcp_types::ReceiverReport::builder(ssrc);
    for rb in blocks {
        let block = rtcp_types::ReportBlock::builder(rb.ssrc).fraction_lost(rb.fraction_lost)
            .cumulative_lost(rb.cumulative_lost).interarrival_jitter(rb.jitter)
            .extended_sequence_number(rb.extended_sequence_number)
            .last_sender_report_timestamp(rb.last_sr_ntp_time)
            .delay_since_last_sender_report_timestamp(rb.delay_since_last_sr);
        b = b.add_report_block(block);
    }
    let mut buf = vec![0u8; b.calculate_size().ok()?];
    b.write_into(&mut buf).ok()?;
    Some(buf)
}

/// Writes a source description with one chunk that holds the canonical
/// name of `ssrc`, with `rtcp_types::Sdes::builder`. The bytes depend on
/// the arguments alone.
#[verifier::external_body]
pub(crate) fn write_cname(ssrc: u32, cname: &str) -> (r: Option<Vec<u8>>)
    ensures
        same_bytes(r, cname_bytes(ssrc, cname@)),
{
    let item = rtcp_types::SdesItem::builder(rtcp_types::SdesItem::CNAME, cname);
    let chunk = rtcp_types::SdesChunk::builder(ssrc).add_item(item);
    let b = rtcp_types::Sdes::builder().add_chunk(chunk);
    let mut buf = vec![0u8; b.calculate_size().ok()?];
    b.write_into(&mut buf).ok()?;
    Some(buf)
}

/// Writes a goodbye packet for the sources of the list with
/// `rtcp_types::Bye::builder`. The bytes depend on the arguments alone.
#[verifier::external_body]
pub(crate) fn write_bye(ssrcs: &Vec<u32>, reason: &str) -> (r: Option<Vec<u8>>)
    ensures
        same_bytes(r, bye_bytes(ssrcs@, reason@)),
{
    let mut b = rtcp_types::Bye::builder().reason(reason);
    for ssrc in ssrcs {
        b = b.add_source(*ssrc);
    }
    let mut buf = vec![0u8; b.calculate_size().ok()?];
    b.write_into(&mut buf).ok()?;
    Some(buf)
}

/// Writes a picture loss indication with `rtcp_types::Pli::builder` in a
/// payload-specific feedback packet. The builder refuses nothing; it writes
/// the header, the two sources in network byte order and nothing more.
#[verifier::external_body]
pub(crate) fn write_pli(sender_ssrc: u32, media_ssrc: u32) -> (r: Option<Vec<u8>>)
    ensures
        same_bytes(r, pli_bytes(sender_ssrc, media_ssrc)),
{
    let b = rtcp_types::PayloadFeedback::builder_owned(rtcp_types::Pli::builder())
        .sender_ssrc(sender_ssrc)
        .media_ssrc(media_ssrc);
    let mut buf = vec![0u8; b.calculate_size().ok()?];
    b.write_into(&mut buf).ok()?;
    Some(buf)
}

/// Writes a full intra request for `media_ssrc` with
/// `rtcp_types::Fir::builder` in a payload-specific feedback packet. The
/// builder refuses nothing where there is one entry; it writes the header,
/// the sending source, a source of zero, and the entry: the source asked
/// in network byte order, the number of the request and three zero bytes.
#[verifier::external_body]
pub(crate) fn write_fir(sender_ssrc: u32, media_ssrc: u32, sequence: u8) -> (r: Option<Vec<u8>>)
    ensures
        same_bytes(r, fir_bytes(sender_ssrc, media_ssrc, sequence)),
{
    let fir = rtcp_types::Fir::builder().add_ssrc(media_ssrc, sequence);
    let b = rtcp_types::PayloadFeedback::builder_owned(fir).sender_ssrc(sender_ssrc);
    let mut buf = vec![0u8; b.calculate_size().ok()?];
    b.write_into(&mut buf).ok()?;
    Some(buf)
}

/// What a sender report holds, where the bytes are one: the reporter, its
/// sender information and its report blocks.
pub uninterp spec fn sender_report_of(data: Seq<u8>) -> Option<(u32, SenderInfo, Seq<ReportBlock>)>;

/// What a receiver report holds, where the bytes are one: the reporter and
/// its report blocks.
pub uninterp spec fn receiver_report_of(data: Seq<u8>) -> Option<(u32, Seq<ReportBlock>)>;

/// The sources that a goodbye names, where the bytes are one.
pub uninterp spec fn bye_sources_of(data: Seq<u8>) -> Option<Seq<u32>>;

/// What payload-specific feedback holds, where the bytes are such a
/// packet: its format, the source that sent it, the source that it is
/// about, and the sources that the entries of a full intra request name.
pub uninterp spec fn feedback_of(data: Seq<u8>) -> Option<(u8, u32, u32, Seq<u32>)>;

/// Reads a sender report with `rtcp_types::SenderReport::parse`. What is
/// read depends on the bytes alone.
#[verifier::external_body]
fn read_sender_report(data: &[u8]) -> (r: Option<(u32, SenderInfo, Vec<ReportBlock>)>)
    ensures
        match r {
            Some((ssrc, info, blocks)) => sender_report_of(data@) == Some((ssrc, info, blocks@)),
            None => sender_report_of(data@) is None,
        },
{
    let sr = rtcp_types::SenderReport::parse(data).ok()?;
    let info = SenderInfo {
        ntp_timestamp: sr.ntp_timestamp(), rtp_timestamp: sr.rtp_timestamp(),
        packet_count: sr.packet_count(), octet_count: sr.octet_count(),
    };
    let blocks = sr.report_blocks().map(|rb| ReportBlock {
        ssrc: rb.ssrc(), fraction_lost: rb.fraction_lost(), jitter: rb.interarrival_jitter(),
        cumulative_lost: rb.cumulative_lost(),
        extended_sequence_number: rb.extended_sequence_number(),
        last_sr_ntp_time: rb.last_sender_report_timestamp(),
        delay_since_last_sr: rb.delay_since_last_sender_report_timestamp(),
    });
    Some((sr.ssrc(), info, blocks.collect()))
}

/// Reads a receiver report with `rtcp_types::ReceiverReport::parse`. What
/// is read depends on the bytes alone.
#[verifier::external_body]
fn read_receiver_report(data: &[u8]) -> (r: Option<(u32, Vec<ReportBlock>)>)
    ensures
        match r {
            Some((ssrc, blocks)) => receiver_report_of(data@) == Some((ssrc, blocks@)),
            None => receiver_report_of(data@) is None,
        },
{
    let rr = rtcp_types::ReceiverReport::parse(data).ok()?;
    let blocks = rr.report_blocks().map(|rb| ReportBlock {
        ssrc: rb.ssrc(), fraction_lost: rb.fraction_lost(), jitter: rb.interarrival_jitter(),
        cumulative_lost: rb.cumulative_lost(),
        extended_sequence_number: rb.extended_sequence_number(),
        last_sr_ntp_time: rb.last_sender_report_timestamp(),
        delay_since_last_sr: rb.delay_since_last_sender_report_timestamp(),
    });
    Some((rr.ssrc(), blocks.collect()))
}

/// Turns bytes into text with `String::from_utf8`: there is text exactly
/// where the bytes are valid UTF-8, and it is what they encode.
#[verifier::external_body]
fn text_of(bytes: &[u8]) -> (r: Option<String>)
    ensures
        r is Some <==> valid_utf8(bytes@),
        r is Some ==> r->0@ == decode_utf8(bytes@),
{
    String::from_utf8(bytes.to_vec()).ok()
}

/// Reads the sources that a goodbye names with `rtcp_types::Bye::parse`.
/// What is read depends on the bytes alone.
#[verifier::external_body]
fn read_bye(data: &[u8]) -> (r: Option<Vec<u32>>)
    ensures
        match r {
            Some(ssrcs) => bye_sources_of(data@) == Some(ssrcs@),
            None => bye_sources_of(data@) is None,
        },
{
    let bye = rtcp_types::Bye::parse(data).ok()?;
    Some(bye.ssrcs().collect())
}

/// Reads payload-specific feedback with
/// `rtcp_types::PayloadFeedback::parse`, and the sources of the entries of
/// a full intra request with `rtcp_types::Fir`; a packet of another format
/// has no such entries. What is read depends on the bytes alone.
#[verifier::external_body]
fn read_feedback(data: &[u8]) -> (r: Option<(u8, u32, u32, Vec<u32>)>)
    ensures
        match r {
            Some((format, sender, media, ssrcs)) => feedback_of(data@) == Some(
                (format, sender, media, ssrcs@),
            ),
            None => feedback_of(data@) is None,
        },
{
    let fb = rtcp_types::PayloadFeedback::parse(data).ok()?;
    let ssrcs = match fb.parse_fci::<rtcp_types::Fir>() {
        Ok(fir) => fir.entries().map(|entry| entry.ssrc()).collect(),
        Err(_) => Vec::new(),
    };
    Some((fb.count(), fb.sender_ssrc(), fb.media_ssrc(), ssrcs))
}

/// The packet type of a sender report.
pub const PT_SR: u8 = 200;

/// The packet type of a receiver report.
pub const PT_RR: u8 = 201;

/// The packet type of a source description.
pub const PT_SDES: u8 = 202;

/// The packet type of a goodbye.
pub const PT_BYE: u8 = 203;

/// The packet type of an application-defined packet.
pub const PT_APP: u8 = 204;

/// The packet type of transport feedback.
pub const PT_RTPFB: u8 = 205;

/// The packet type of payload-specific feedback.
pub const PT_PSFB: u8 = 206;

/// The type of a private source description item: its value follows a
/// prefix of its own.
pub const SDES_PRIV: u8 = 8;

/// The length in bytes of the RTCP packet that starts at `at`, from the
/// length field of its header: the number of its 32-bit words less one.
pub open spec fn packet_len_at(data: Seq<u8>, at: int) -> int {
    4 * ((data[at + 2] as int) * 256 + (data[at + 3] as int) + 1)
}

/// Whether RTCP packets, each as long as its header says, fill the data
/// from `at` to its end.
pub open spec fn framed_from(data: Seq<u8>, at: int) -> bool
    decreases data.len() - at,
{
    if at < 0 || at >= data.len() {
        at == data.len()
    } else {
        at + 4 <= data.len() && at + packet_len_at(data, at) <= data.len() && framed_from(
            data,
            at + packet_len_at(data, at),
        )
    }
}

/// Whether the data is a compound RTCP packet: not empty, and filled by
/// RTCP packets that are each as long as their header says.
pub open spec fn is_compound(data: Seq<u8>) -> bool {
    data.len() > 0 && framed_from(data, 0)
}

/// Whether the header of a packet is sound: it has version 2 and the
/// length that it states.
pub open spec fn version_sound(p: Seq<u8>) -> bool {
    p.len() >= 4 && 0x80 <= p[0] < 0xc0 && packet_len_at(p, 0) == p.len()
}

/// Whether a packet that announces padding says in its last byte that it
/// has some.
pub open spec fn padding_sound(p: Seq<u8>) -> bool {
    (p[0] / 0x20) % 2 == 1 ==> p[p.len() - 1] != 0
}

/// Whether the engine reads what a packet of this type holds.
pub open spec fn is_read(kind: u8) -> bool {
    kind == PT_SR || kind == PT_RR || kind == PT_SDES || kind == PT_BYE || kind == PT_PSFB
}

/// Whether a packet of a type that the engine does not read is in order:
/// its header is sound, and an application-defined packet or transport
/// feedback has its 12 bytes and sound padding.
pub open spec fn other_readable(p: Seq<u8>) -> bool {
    version_sound(p) && (p[1] == PT_APP || p[1] == PT_RTPFB ==> p.len() >= 12 && padding_sound(p))
}

/// The source that the four bytes at `at` name, in network byte order.
pub open spec fn ssrc_at(p: Seq<u8>, at: int) -> u32 {
    ((p[at] as int) * 0x100_0000 + (p[at + 1] as int) * 0x1_0000 + (p[at + 2] as int) * 0x100 + (
    p[at + 3] as int)) as u32
}

/// Where the source description item that starts at `at` ends: behind its
/// type, its length and as many bytes as the length says.
pub open spec fn item_end(p: Seq<u8>, at: int) -> int {
    at + 2 + p[at + 1]
}

/// Where the value of the item at `at` starts: behind type and length, and
/// in a private item behind the length of its prefix and the prefix.
pub open spec fn value_start(p: Seq<u8>, at: int) -> int {
    if p[at] == SDES_PRIV {
        at + 3 + p[at + 2]
    } else {
        at + 2
    }
}

/// Whether the item at `at` lies within the packet, and the prefix of a
/// private item within the item.
pub open spec fn item_fits(p: Seq<u8>, at: int) -> bool {
    &&& at + 2 <= p.len()
    &&& item_end(p, at) <= p.len()
    &&& p[at] == SDES_PRIV ==> p[at + 1] >= 1 && value_start(p, at) <= item_end(p, at)
}

/// What a source description item is to the engine: a packet of its own
/// where its value is text, and nothing where it is no valid UTF-8.
pub open spec fn item_packet(ssrc: u32, item: u8, value: Seq<u8>) -> Seq<RtcpPacketView> {
    if valid_utf8(value) {
        seq![RtcpPacketView::Sdes { ssrc, item, value: decode_utf8(value) }]
    } else {
        Seq::empty()
    }
}

/// The packets `done` in front of what was read, where something was.
pub open spec fn prefixed(
    done: Seq<RtcpPacketView>,
    rest: Option<(Seq<RtcpPacketView>, int)>,
) -> Option<(Seq<RtcpPacketView>, int)> {
    match rest {
        Some((v, end)) => Some((done + v, end)),
        None => None,
    }
}

/// The items of the source `ssrc` from `at` on, and the place behind their
/// list: it ends with a zero byte or with the packet. `None` where an item
/// does not fit.
pub open spec fn items_from(p: Seq<u8>, ssrc: u32, at: int) -> Option<(Seq<RtcpPacketView>, int)>
    decreases p.len() - at,
{
    if at < 0 || at >= p.len() {
        Some((Seq::empty(), at))
    } else if p[at] == 0 {
        Some((Seq::empty(), at + 1))
    } else if !item_fits(p, at) {
        None
    } else {
        prefixed(
            item_packet(ssrc, p[at], p.subrange(value_start(p, at), item_end(p, at))),
            items_from(p, ssrc, item_end(p, at)),
        )
    }
}

/// The next multiple of four from `at` on, where all bytes up to it are
/// zero and within the packet.
pub open spec fn padded(p: Seq<u8>, at: int) -> Option<int>
    decreases p.len() - at,
{
    if at % 4 == 0 {
        Some(at)
    } else if at < 0 || at >= p.len() || p[at] != 0 {
        None
    } else {
        padded(p, at + 1)
    }
}

/// The packets `done` in front of what was read, where something was.
pub open spec fn joined(done: Seq<RtcpPacketView>, rest: Option<Seq<RtcpPacketView>>) -> Option<
    Seq<RtcpPacketView>,
> {
    match rest {
        Some(v) => Some(done + v),
        None => None,
    }
}

/// The items of the chunks of a source description from `at` on. A chunk
/// is the four bytes of its source, the list of its items and zero bytes
/// up to the next multiple of four.
pub open spec fn chunks_from(p: Seq<u8>, at: int) -> Option<Seq<RtcpPacketView>>
    decreases p.len() - at,
{
    if at < 0 || at >= p.len() {
        Some(Seq::empty())
    } else if at + 4 > p.len() {
        None
    } else {
        match items_from(p, ssrc_at(p, at), at + 4) {
            Some((items, end)) => match padded(p, end) {
                Some(next) => if at < next <= p.len() {
                    joined(items, chunks_from(p, next))
                } else {
                    None
                },
                None => None,
            },
            None => None,
        }
    }
}

/// The items with text of a source description, one by one in the order of
/// the packet: its header is sound, and chunks fill it behind the header.
/// `None` where the bytes are no such packet.
pub open spec fn sdes_of(p: Seq<u8>) -> Option<Seq<RtcpPacketView>> {
    if version_sound(p) && padding_sound(p) {
        chunks_from(p, 4)
    } else {
        None
    }
}

/// What one RTCP packet holds for the engine: a report, the items of a
/// source description one by one, a goodbye or payload-specific feedback;
/// a packet of another type is passed over. `None` where the packet cannot
/// be read.
pub open spec fn one_packet(p: Seq<u8>) -> Option<Seq<RtcpPacketView>> {
    if p[1] == PT_SR {
        match sender_report_of(p) {
            Some((ssrc, info, report_blocks)) => Some(
                seq![RtcpPacketView::Sr { ssrc, info, report_blocks }],
            ),
            None => None,
        }
    } else if p[1] == PT_RR {
        match receiver_report_of(p) {
            Some((ssrc, report_blocks)) => Some(seq![RtcpPacketView::Rr { ssrc, report_blocks }]),
            None => None,
        }
    } else if p[1] == PT_SDES {
        sdes_of(p)
    } else if p[1] == PT_BYE {
        match bye_sources_of(p) {
            Some(ssrcs) => Some(seq![RtcpPacketView::Bye { ssrcs }]),
            None => None,
        }
    } else if p[1] == PT_PSFB {
        match feedback_of(p) {
            Some((format, sender_ssrc, media_ssrc, ssrcs)) => Some(
                seq![RtcpPacketView::PayloadFeedback { format, sender_ssrc, media_ssrc, ssrcs }],
            ),
            None => None,
        }
    } else if other_readable(p) {
        Some(seq![RtcpPacketView::Other])
    } else {
        None
    }
}

/// What the RTCP packets from `at` on hold for the engine, up to the first
/// that cannot be read.
pub open spec fn packets_from(data: Seq<u8>, at: int) -> Seq<RtcpPacketView>
    decreases data.len() - at,
{
    if at < 0 || at + 4 > data.len() || at + packet_len_at(data, at) > data.len() {
        Seq::empty()
    } else {
        match one_packet(data.subrange(at, at + packet_len_at(data, at))) {
            Some(v) => v + packets_from(data, at + packet_len_at(data, at)),
            None => Seq::empty(),
        }
    }
}

/// The length of the RTCP packet that starts at `at`.
fn packet_len(data: &[u8], at: usize) -> (r: usize)
    requires
        at + 4 <= data@.len(),
    ensures
        r == packet_len_at(data@, at as int),
        4 <= r <= 0x4_0000,
{
    let n = data.len();
    assert(at + 4 <= n);
    4 * ((data[at + 2] as usize) * 256 + (data[at + 3] as usize) + 1)
}

/// Whether the data is a compound RTCP packet.
fn check_framing(data: &[u8]) -> (r: bool)
    ensures
        r == is_compound(data@),
{
    let n = data.len();
    if n == 0 {
        return false;
    }
    let mut at: usize = 0;
    while at < n
        invariant
            at <= n,
            n == data@.len(),
            framed_from(data@, 0) == framed_from(data@, at as int),
        decreases n - at,
    {
        if n - at < 4 {
            return false;
        }
        let len = packet_len(data, at);
        if len > n - at {
            return false;
        }
        at += len;
    }
    true
}

/// Asks `rtcp_types::Packet::parse` whether a packet of a type that the
/// engine does not read is in order. Of such a packet the parser checks
/// that it has version 2 and the length that its header states; of an
/// application-defined packet and of transport feedback also that it has
/// 12 bytes and that, where it announces padding, its last byte is not zero.
#[verifier::external_body]
fn reads_as_other(p: &[u8]) -> (r: bool)
    requires
        p@.len() >= 4,
        !is_read(p@[1]),
    ensures
        r == other_readable(p@),
{
    rtcp_types::Packet::parse(p).is_ok()
}

/// The source that the four bytes at `at` name.
fn ssrc_of(p: &[u8], at: usize) -> (r: u32)
    requires
        at + 4 <= p@.len(),
    ensures
        r == ssrc_at(p@, at as int),
{
    (p[at] as u32) * 0x100_0000 + (p[at + 1] as u32) * 0x1_0000 + (p[at + 2] as u32) * 0x100 + (
    p[at + 3] as u32)
}

/// Reads the items of the source `ssrc` from `start` on and puts those with
/// text behind the packets in `out`. Gives the place behind the list.
fn read_items(p: &[u8], ssrc: u32, start: usize, out: &mut Vec<RtcpPacket>) -> (r: Option<usize>)
    requires
        start <= p@.len(),
    ensures
        match items_from(p@, ssrc, start as int) {
            Some((v, end)) => r == Some(end as usize) && start <= end <= p@.len() && views(
                final(out)@,
            ) == views(old(out)@) + v,
            None => r is None,
        },
{
    let n = p.len();
    let mut at: usize = start;
    let ghost mut done: Seq<RtcpPacketView> = Seq::empty();
    proof {
        assert(views(out@) =~= views(old(out)@) + done);
        lemma_prefixed_nothing(items_from(p@, ssrc, start as int));
    }
    while at < n
        invariant
            start <= at <= n,
            n == p@.len(),
            views(out@) == views(old(out)@) + done,
            items_from(p@, ssrc, start as int) == prefixed(done, items_from(p@, ssrc, at as int)),
        decreases n - at,
    {
        let kind = p[at];
        if kind == 0 {
            proof {
                assert(done + Seq::<RtcpPacketView>::empty() =~= done);
            }
            return Some(at + 1);
        }
        if n - at < 2 {
            return None;
        }
        let len = p[at + 1] as usize;
        if n - at - 2 < len {
            return None;
        }
        let end = at + 2 + len;
        let mut from = at + 2;
        if kind == SDES_PRIV {
            if len < 1 {
                return None;
            }
            let prefix = p[at + 2] as usize;
            if prefix + 1 > len {
                return None;
            }
            from = at + 3 + prefix;
        }
        let value = slice_subrange(p, from, end);
        let ghost item = item_packet(ssrc, kind, value@);
        let ghost so_far = out@;
        match text_of(value) {
            Some(text) => {
                out.push(RtcpPacket::Sdes { ssrc, item: kind, value: text });
                proof {
                    assert(views(out@) =~= views(so_far).push(out@[so_far.len() as int]@));
                    assert(views(out@) =~= views(so_far) + item);
                }
            },
            None => {
                proof {
                    assert(views(out@) =~= views(so_far) + item);
                }
            },
        }
        proof {
            lemma_prefixed_twice(done, item, items_from(p@, ssrc, end as int));
            assert(views(out@) =~= views(old(out)@) + (done + item));
            done = done + item;
        }
        at = end;
    }
    proof {
        assert(done + Seq::<RtcpPacketView>::empty() =~= done);
    }
    Some(at)
}

/// The next multiple of four from `from` on, where all bytes up to it are
/// zero.
fn pad_end(p: &[u8], from: usize) -> (r: Option<usize>)
    requires
        from <= p@.len(),
    ensures
        match padded(p@, from as int) {
            Some(end) => r == Some(end as usize) && from <= end <= p@.len(),
            None => r is None,
        },
{
    let n = p.len();
    let mut at: usize = from;
    while at % 4 != 0
        invariant
            from <= at <= n,
            n == p@.len(),
            padded(p@, from as int) == padded(p@, at as int),
        decreases n - at,
    {
        if at >= n || p[at] != 0 {
            return None;
        }
        at += 1;
    }
    Some(at)
}

/// Reads the items with text of a source description, one by one; `None`
/// where the bytes are no source description.
fn read_sdes(p: &[u8]) -> (r: Option<Vec<RtcpPacket>>)
    requires
        p@.len() >= 4,
    ensures
        match r {
            Some(v) => sdes_of(p@) == Some(views(v@)),
            None => sdes_of(p@) is None,
        },
{
    let n = p.len();
    if p[0] < 0x80 || p[0] >= 0xc0 || packet_len(p, 0) != n {
        return None;
    }
    if (p[0] / 0x20) % 2 == 1 && p[n - 1] == 0 {
        return None;
    }
    let mut found: Vec<RtcpPacket> = Vec::new();
    let mut at: usize = 4;
    proof {
        lemma_joined_nothing(chunks_from(p@, 4));
        assert(views(found@) =~= Seq::<RtcpPacketView>::empty());
    }
    while at < n
        invariant
            4 <= at <= n,
            n == p@.len(),
            chunks_from(p@, 4) == joined(views(found@), chunks_from(p@, at as int)),
        decreases n - at,
    {
        if n - at < 4 {
            return None;
        }
        let ssrc = ssrc_of(p, at);
        let ghost done = views(found@);
        let end = match read_items(p, ssrc, at + 4, &mut found) {
            Some(end) => end,
            None => {
                return None;
            },
        };
        let next = match pad_end(p, end) {
            Some(next) => next,
            None => {
                return None;
            },
        };
        proof {
            let found_items = items_from(p@, ssrc, at + 4)->0;
            let items = found_items.0;
            lemma_joined_twice(done, items, chunks_from(p@, next as int));
        }
        at = next;
    }
    proof {
        assert(views(found@) + Seq::<RtcpPacketView>::empty() =~= views(found@));
    }
    Some(found)
}

/// Nothing in front of what was read leaves it as it is.
proof fn lemma_prefixed_nothing(rest: Option<(Seq<RtcpPacketView>, int)>)
    ensures
        prefixed(Seq::empty(), rest) == rest,
{
    if rest is Some {
        assert(Seq::<RtcpPacketView>::empty() + (rest->0).0 =~= (rest->0).0);
    }
}

/// Putting `a` in front of `b` and what was read is putting `a` and `b` in
/// front of it.
proof fn lemma_prefixed_twice(
    a: Seq<RtcpPacketView>,
    b: Seq<RtcpPacketView>,
    rest: Option<(Seq<RtcpPacketView>, int)>,
)
    ensures
        prefixed(a, prefixed(b, rest)) == prefixed(a + b, rest),
{
    if rest is Some {
        assert(a + (b + (rest->0).0) =~= (a + b) + (rest->0).0);
    }
}

/// Nothing in front of what was read leaves it as it is.
proof fn lemma_joined_nothing(rest: Option<Seq<RtcpPacketView>>)
    ensures
        joined(Seq::empty(), rest) == rest,
{
    if rest is Some {
        assert(Seq::<RtcpPacketView>::empty() + rest->0 =~= rest->0);
    }
}

/// Putting `a` in front of `b` and what was read is putting `a` and `b` in
/// front of it.
proof fn lemma_joined_twice(
    a: Seq<RtcpPacketView>,
    b: Seq<RtcpPacketView>,
    rest: Option<Seq<RtcpPacketView>>,
)
    ensures
        joined(a, joined(b, rest)) == joined(a + b, rest),
{
    if rest is Some {
        assert(a + (b + rest->0) =~= (a + b) + rest->0);
    }
}

/// Reads one RTCP packet and puts what it holds behind the packets in
/// `out`. Tells whether the packet could be read.
fn read_packet(p: &[u8], out: &mut Vec<RtcpPacket>) -> (ok: bool)
    requires
        p@.len() >= 4,
    ensures
        match one_packet(p@) {
            Some(v) => ok && views(final(out)@) == views(old(out)@) + v,
            None => !ok && final(out)@ == old(out)@,
        },
{
    let ghost before = out@;
    let kind = p[1];
    if kind == PT_SR {
        match read_sender_report(p) {
            Some((ssrc, info, report_blocks)) => {
                out.push(RtcpPacket::Sr { ssrc, info, report_blocks });
            },
            None => {
                return false;
            },
        }
    } else if kind == PT_RR {
        match read_receiver_report(p) {
            Some((ssrc, report_blocks)) => {
                out.push(RtcpPacket::Rr { ssrc, report_blocks });
            },
            None => {
                return false;
            },
        }
    } else if kind == PT_SDES {
        match read_sdes(p) {
            Some(found) => {
                let mut found = found;
                out.append(&mut found);
                proof {
                    assert(views(out@) =~= views(before) + sdes_of(p@)->0);
                }
                return true;
            },
            None => {
                return false;
            },
        }
    } else if kind == PT_BYE {
        match read_bye(p) {
            Some(ssrcs) => {
                out.push(RtcpPacket::Bye { ssrcs });
            },
            None => {
                return false;
            },
        }
    } else if kind == PT_PSFB {
        match read_feedback(p) {
            Some((format, sender_ssrc, media_ssrc, ssrcs)) => {
                out.push(RtcpPacket::PayloadFeedback { format, sender_ssrc, media_ssrc, ssrcs });
            },
            None => {
                return false;
            },
        }
    } else if reads_as_other(p) {
        out.push(RtcpPacket::Other);
    } else {
        return false;
    }
    proof {
        assert(views(out@) =~= views(before) + seq![out@[before.len() as int]@]);
    }
    true
}

/// Reads the packets of a compound RTCP packet, up to the first that
/// cannot be read; `None` where the data is no compound RTCP packet.
pub fn parse_rtcp(data: &[u8]) -> (r: Option<Vec<RtcpPacket>>)
    ensures
        match r {
            Some(v) => is_compound(data@) && views(v@) == packets_from(data@, 0),
            None => !is_compound(data@),
        },
{
    if !check_framing(data) {
        return None;
    }
    let n = data.len();
    let mut out: Vec<RtcpPacket> = Vec::new();
    let mut at: usize = 0;
    proof {
        assert(views(out@) + packets_from(data@, 0) =~= packets_from(data@, 0));
    }
    while at < n
        invariant
            at <= n,
            n == data@.len(),
            is_compound(data@),
            framed_from(data@, at as int),
            views(out@) + packets_from(data@, at as int) == packets_from(data@, 0),
        decreases n - at,
    {
        let len = packet_len(data, at);
        let packet = slice_subrange(data, at, at + len);
        let ghost done = views(out@);
        let ghost rest = packets_from(data@, (at + len) as int);
        proof {
            assert(packet@ == data@.subrange(at as int, at + len));
        }
        if !read_packet(packet, &mut out) {
            proof {
                assert(packets_from(data@, at as int) =~= Seq::<RtcpPacketView>::empty());
                assert(views(out@) + Seq::<RtcpPacketView>::empty() =~= views(out@));
            }
            return Some(out);
        }
        proof {
            let v = one_packet(packet@)->0;
            assert(packets_from(data@, at as int) == v + rest);
            assert(views(out@) + rest =~= done + (v + rest));
        }
        at += len;
    }
    proof {
        assert(views(out@) + Seq::<RtcpPacketView>::empty() =~= views(out@));
    }
    Some(out)
}

} // verus!

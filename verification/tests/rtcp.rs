use rtcp_types::{Compound, Fir, Packet, Pli};
use rtpbin2::packet::{ReportBlock, RtcpPacket, RtpPacket, SenderInfo};
use rtpbin2::rtcp::parse_rtcp;
use rtpbin2::session::{KeyUnitRequestType, RtcpRecvReply, RtpProfile, Session};
use rtpbin2::source::SourceState;

const SECOND: u64 = 1_000_000_000;
const MS: u64 = 1_000_000;

fn packet(ssrc: u32, seq: u16, ts: u32) -> RtpPacket {
    RtpPacket { payload_type: 96, sequence_number: seq, timestamp: ts, ssrc, payload_len: 100 }
}

fn parse(bytes: &[u8]) -> Vec<Packet<'_>> {
    Compound::parse(bytes).unwrap().map(|p| p.unwrap()).collect()
}

#[test]
fn nothing_is_sent_before_the_deadline() {
    let mut s = Session::with_cname("alice@example.org");
    s.handle_send_all(&packet(7, 1, 1000), 0);
    assert_eq!(s.poll_rtcp_send_with(10 * SECOND, 0, 5), None);
    let deadline = s.poll_rtcp_send_timeout_with(SECOND, 0).unwrap();
    assert_eq!(s.poll_rtcp_send_with(deadline - 1, 0, 5), None);
    assert!(s.poll_rtcp_send_with(deadline, 0, 5).is_some());
    assert_eq!(s.poll_rtcp_send_with(deadline, 0, 5), None);
}

#[test]
fn sender_reports_with_its_counts() {
    let mut s = Session::with_cname("alice@example.org");
    s.set_pt_clock_rate(96, 8000);
    s.handle_send_all(&packet(7, 1, 1000), 0);
    s.handle_send_all(&packet(7, 2, 1160), 20 * MS);
    let deadline = s.poll_rtcp_send_timeout_with(0, 0x8000_0000).unwrap();
    assert_eq!(deadline, 2_500_000_000);
    let ntp_now = (3_900_000_000u64 << 32) + 5;
    let bytes = s.poll_rtcp_send_with(deadline + 20 * MS, ntp_now, 5).unwrap();
    // Sender report without blocks: 28 bytes; source description with a
    // name of 17 bytes: header 4, ssrc 4, item 2 + 17, end and padding 1.
    assert_eq!(bytes.len(), 28 + 28);
    let packets = parse(&bytes);
    assert_eq!(packets.len(), 2);
    match &packets[0] {
        Packet::Sr(sr) => {
            assert_eq!(sr.ssrc(), 7);
            assert_eq!(sr.ntp_timestamp(), ntp_now);
            // 2.5 s after the last packet at 8 kHz.
            assert_eq!(sr.rtp_timestamp(), 1160 + 20_000);
            assert_eq!(sr.packet_count(), 2);
            assert_eq!(sr.octet_count(), 200);
            assert_eq!(sr.n_reports(), 0);
        }
        other => panic!("unexpected packet {other:?}"),
    }
    match &packets[1] {
        Packet::Sdes(sdes) => {
            let chunks: Vec<_> = sdes.chunks().collect();
            assert_eq!(chunks.len(), 1);
            assert_eq!(chunks[0].ssrc(), 7);
            let items: Vec<_> = chunks[0].items().collect();
            assert_eq!(items.len(), 1);
            assert_eq!(items[0].type_(), 1);
            assert_eq!(items[0].value(), b"alice@example.org");
        }
        other => panic!("unexpected packet {other:?}"),
    }
    let source = s.local_send_source_by_ssrc(7).unwrap();
    let sr = source.last_sent_sr().unwrap();
    assert_eq!(
        sr,
        SenderInfo {
            ntp_timestamp: ntp_now,
            rtp_timestamp: 21_160,
            packet_count: 2,
            octet_count: 200
        }
    );
    assert_eq!(s.next_rtcp_send(), None);
    // The size of the packet goes into the average: (56 + 1500) / 16.
    assert_eq!(s.avg_rtcp_size(), 97);
    // After the first report the interval is no longer halved.
    assert_eq!(s.interval(), 5 * SECOND);
    assert_eq!(
        s.poll_rtcp_send_timeout_with(9 * SECOND, 0x8000_0000),
        Some(deadline + 20 * MS + 5 * SECOND)
    );
}

#[test]
fn receiver_reports_under_an_internal_ssrc() {
    let mut s = Session::with_cname("alice");
    s.handle_recv_all(&packet(1, 100, 0), None, 0);
    s.handle_recv_all(&packet(1, 101, 160), None, 20 * MS);
    s.handle_recv_all(&packet(1, 103, 480), None, 60 * MS);
    let sr = vec![RtcpPacket::Sr {
        ssrc: 1,
        info: SenderInfo {
            ntp_timestamp: 0x0123_4567_89ab_cdef,
            rtp_timestamp: 0,
            packet_count: 4,
            octet_count: 400,
        },
        report_blocks: vec![],
    }];
    s.handle_rtcp_recv(&sr, 100, None, SECOND, 0);
    let deadline = s.poll_rtcp_send_timeout_with(SECOND, 0).unwrap();
    assert_eq!(s.internal_ssrc(), None);
    let bytes = s.poll_rtcp_send_with(deadline, 0, 0xdead_beef).unwrap();
    assert_eq!(s.internal_ssrc(), Some(0xdead_beef));
    let internal = s.local_receive_source_by_ssrc(0xdead_beef).unwrap();
    assert_eq!(internal.state(), SourceState::Active);
    let packets = parse(&bytes);
    assert_eq!(packets.len(), 2);
    match &packets[0] {
        Packet::Rr(rr) => {
            assert_eq!(rr.ssrc(), 0xdead_beef);
            let blocks: Vec<_> = rr.report_blocks().collect();
            assert_eq!(blocks.len(), 1);
            assert_eq!(blocks[0].ssrc(), 1);
            // Four packets expected, three received.
            assert_eq!(blocks[0].cumulative_lost(), 1);
            assert_eq!(blocks[0].fraction_lost(), 64);
            assert_eq!(blocks[0].extended_sequence_number(), 103);
            assert_eq!(blocks[0].interarrival_jitter(), 0);
            assert_eq!(blocks[0].last_sender_report_timestamp(), 0x4567_89ab);
            // 1.25 s since the report, in units of 1/65536 s.
            assert_eq!(blocks[0].delay_since_last_sender_report_timestamp(), 81_920);
        }
        other => panic!("unexpected packet {other:?}"),
    }
    assert!(matches!(&packets[1], Packet::Sdes(_)));
    let source = s.remote_send_source_by_ssrc(1).unwrap();
    let rb = source.last_sent_rb().unwrap();
    assert_eq!(rb.cumulative_lost, 1);
    assert_eq!(rb.fraction_lost, 64);

    // The next report tells of the time since this one: one more packet
    // expected and received, none lost.
    s.handle_recv_all(&packet(1, 104, 640), None, 2 * SECOND);
    let deadline = s.poll_rtcp_send_timeout_with(2 * SECOND, 0).unwrap();
    let bytes = s.poll_rtcp_send_with(deadline, 0, 1).unwrap();
    assert_eq!(s.internal_ssrc(), Some(0xdead_beef));
    match &parse(&bytes)[0] {
        Packet::Rr(rr) => {
            assert_eq!(rr.ssrc(), 0xdead_beef);
            let blocks: Vec<_> = rr.report_blocks().collect();
            assert_eq!(blocks[0].cumulative_lost(), 1);
            assert_eq!(blocks[0].fraction_lost(), 0);
            assert_eq!(blocks[0].extended_sequence_number(), 104);
        }
        other => panic!("unexpected packet {other:?}"),
    }
}

#[test]
fn sequence_number_cycles_are_reported() {
    let mut s = Session::with_cname("alice");
    s.handle_recv_all(&packet(1, 65534, 0), None, 0);
    s.handle_recv_all(&packet(1, 65535, 0), None, 0);
    s.handle_recv_all(&packet(1, 0, 0), None, 0);
    s.handle_recv_all(&packet(1, 1, 0), None, 0);
    let deadline = s.poll_rtcp_send_timeout_with(0, 0).unwrap();
    let bytes = s.poll_rtcp_send_with(deadline, 0, 9).unwrap();
    match &parse(&bytes)[0] {
        Packet::Rr(rr) => {
            let blocks: Vec<_> = rr.report_blocks().collect();
            assert_eq!(blocks[0].extended_sequence_number(), 0x1_0001);
            assert_eq!(blocks[0].cumulative_lost(), 0);
        }
        other => panic!("unexpected packet {other:?}"),
    }
}

#[test]
fn goodbye_names_the_sources_that_leave() {
    let mut s = Session::with_cname("alice");
    s.handle_send_all(&packet(7, 1, 0), 0);
    s.handle_send_all(&packet(8, 1, 0), 0);
    s.schedule_bye("End of Stream", SECOND);
    let bytes = s.poll_rtcp_send_with(SECOND, 0, 0xabcd).unwrap();
    let packets = parse(&bytes);
    assert_eq!(packets.len(), 3);
    match &packets[0] {
        Packet::Rr(rr) => assert_eq!(rr.ssrc(), 0xabcd),
        other => panic!("unexpected packet {other:?}"),
    }
    assert!(matches!(&packets[1], Packet::Sdes(_)));
    match &packets[2] {
        Packet::Bye(bye) => {
            assert_eq!(bye.ssrcs().collect::<Vec<_>>(), vec![7, 8]);
            assert_eq!(bye.reason(), Some(&b"End of Stream"[..]));
        }
        other => panic!("unexpected packet {other:?}"),
    }
    // The sources that left are forgotten.
    assert_eq!(s.ssrcs(), vec![0xabcd]);
    assert_eq!(s.next_rtcp_send(), None);
}

#[test]
fn marked_source_leaves_with_the_next_report() {
    let mut s = Session::with_cname("alice");
    s.handle_send_all(&packet(7, 1, 0), 0);
    s.handle_send_all(&packet(8, 1, 0), 0);
    s.mark_bye(8, "gone fishing");
    let deadline = s.poll_rtcp_send_timeout_with(0, 0).unwrap();
    let bytes = s.poll_rtcp_send_with(deadline, 0, 1).unwrap();
    let packets = parse(&bytes);
    assert_eq!(packets.len(), 3);
    match &packets[0] {
        Packet::Sr(sr) => assert_eq!(sr.ssrc(), 7),
        other => panic!("unexpected packet {other:?}"),
    }
    match &packets[2] {
        Packet::Bye(bye) => {
            assert_eq!(bye.ssrcs().collect::<Vec<_>>(), vec![8]);
            assert_eq!(bye.reason(), Some(&b"gone fishing"[..]));
        }
        other => panic!("unexpected packet {other:?}"),
    }
    assert_eq!(s.ssrcs(), vec![7]);
    assert_eq!(s.internal_ssrc(), None);
}

#[test]
fn key_unit_requests_go_out_as_feedback() {
    let mut s = Session::with_cname("alice");
    s.set_profile(RtpProfile::Avpf);
    s.handle_recv_all(&packet(1, 100, 0), None, 0);
    s.handle_recv_all(&packet(1, 101, 0), None, 0);
    s.request_remote_key_unit(SECOND, KeyUnitRequestType::Pli, 1);
    s.request_remote_key_unit(SECOND, KeyUnitRequestType::Pli, 1);
    s.request_remote_key_unit(SECOND, KeyUnitRequestType::Fir(0x103), 1);
    let bytes = s.poll_rtcp_send_with(SECOND, 0, 0x55).unwrap();
    let packets = parse(&bytes);
    // Receiver report, source description, one indication, one request.
    assert_eq!(packets.len(), 4);
    match &packets[2] {
        Packet::PayloadFeedback(fb) => {
            assert_eq!(fb.sender_ssrc(), 0x55);
            assert_eq!(fb.media_ssrc(), 1);
            assert!(fb.parse_fci::<Pli>().is_ok());
        }
        other => panic!("unexpected packet {other:?}"),
    }
    match &packets[3] {
        Packet::PayloadFeedback(fb) => {
            assert_eq!(fb.sender_ssrc(), 0x55);
            let fir = fb.parse_fci::<Fir>().unwrap();
            let entries: Vec<_> = fir.entries().collect();
            assert_eq!(entries.len(), 1);
            assert_eq!(entries[0].ssrc(), 1);
            assert_eq!(entries[0].sequence(), 3);
        }
        other => panic!("unexpected packet {other:?}"),
    }
    // The requests are gone: the next packet holds none.
    let deadline = s.poll_rtcp_send_timeout_with(SECOND, 0).unwrap();
    let bytes = s.poll_rtcp_send_with(deadline, 0, 0).unwrap();
    assert_eq!(parse(&bytes).len(), 2);
}

#[test]
fn early_feedback_alone_with_reduced_size() {
    let mut s = Session::with_cname("alice");
    s.set_profile(RtpProfile::Avpf);
    s.set_reduced_size_rtcp(true);
    s.handle_send_all(&packet(7, 1, 0), 0);
    let deadline = s.poll_rtcp_send_timeout_with(0, 0).unwrap();
    s.request_remote_key_unit(10 * MS, KeyUnitRequestType::Pli, 1);
    assert_eq!(s.next_rtcp_send(), Some(10 * MS));
    let bytes = s.poll_rtcp_send_with(10 * MS, 0, 0).unwrap();
    assert_eq!(bytes.len(), 12);
    let packets = parse(&bytes);
    assert_eq!(packets.len(), 1);
    match &packets[0] {
        Packet::PayloadFeedback(fb) => {
            assert_eq!(fb.sender_ssrc(), 7);
            assert_eq!(fb.media_ssrc(), 1);
        }
        other => panic!("unexpected packet {other:?}"),
    }
    assert_eq!(s.local_send_source_by_ssrc(7).unwrap().last_sent_sr(), None);
    // The regular report has still to come.
    assert_eq!(s.poll_rtcp_send_timeout_with(10 * MS, 0), Some(deadline));
}

#[test]
fn receiver_report_is_read_from_bytes() {
    let data: [u8; 32] = [
        0x81, 201, 0x00, 0x07, // one report block, eight words
        0x12, 0x34, 0x56, 0x78, // reporter
        0x00, 0x00, 0x00, 0x07, // about ssrc 7
        0x40, 0x00, 0x01, 0x02, // fraction lost 64, 258 packets lost
        0x00, 0x01, 0x00, 0x05, // extended sequence number
        0x00, 0x00, 0x00, 0x09, // jitter
        0x0a, 0x0b, 0x0c, 0x0d, // last sender report
        0x00, 0x01, 0x00, 0x00, // delay since then
    ];
    let expected = RtcpPacket::Rr {
        ssrc: 0x1234_5678,
        report_blocks: vec![ReportBlock {
            ssrc: 7,
            fraction_lost: 64,
            cumulative_lost: 258,
            extended_sequence_number: 0x1_0005,
            jitter: 9,
            last_sr_ntp_time: 0x0a0b_0c0d,
            delay_since_last_sr: 0x1_0000,
        }],
    };
    assert_eq!(parse_rtcp(&data), Some(vec![expected]));
}

#[test]
fn bytes_that_are_no_compound_packet() {
    assert_eq!(parse_rtcp(&[]), None);
    assert_eq!(parse_rtcp(&[0x80, 201, 0x00]), None);
    // The length field announces three words, two are there.
    assert_eq!(parse_rtcp(&[0x80, 201, 0x00, 0x02, 0, 0, 0, 1]), None);
    // A second packet is cut off.
    assert_eq!(parse_rtcp(&[0x80, 201, 0x00, 0x01, 0, 0, 0, 1, 0x80, 201]), None);
}

#[test]
fn packets_behind_one_that_cannot_be_read_are_left_out() {
    let data: [u8; 24] = [
        0x80, 201, 0x00, 0x01, 0, 0, 0, 1, // receiver report of ssrc 1
        0x80, 200, 0x00, 0x01, 0, 0, 0, 2, // too short for a sender report
        0x80, 201, 0x00, 0x01, 0, 0, 0, 3, // receiver report of ssrc 3
    ];
    assert_eq!(parse_rtcp(&data), Some(vec![RtcpPacket::Rr { ssrc: 1, report_blocks: vec![] }]));
    // The same with a wrong version in the first packet: nothing is read.
    let mut data = data;
    data[0] = 0x40;
    assert_eq!(parse_rtcp(&data), Some(vec![]));
}

#[test]
fn packets_of_other_types_are_passed_over() {
    let data: [u8; 36] = [
        0x80, 204, 0x00, 0x02, 0, 0, 0, 1, b'n', b'a', b'm', b'e', // application-defined
        0x80, 201, 0x00, 0x01, 0, 0, 0, 2, // receiver report of ssrc 2
        0x8f, 205, 0x00, 0x02, 0, 0, 0, 3, 0, 0, 0, 4, // transport feedback
        0x80, 207, 0x00, 0x00, // an extended report without content
    ];
    assert_eq!(
        parse_rtcp(&data),
        Some(vec![
            RtcpPacket::Other,
            RtcpPacket::Rr { ssrc: 2, report_blocks: vec![] },
            RtcpPacket::Other,
            RtcpPacket::Other
        ])
    );
}

#[test]
fn packet_of_another_type_that_is_out_of_order_ends_the_reading() {
    let rr = RtcpPacket::Rr { ssrc: 2, report_blocks: vec![] };
    // Transport feedback of two words: too short.
    let data: [u8; 24] = [
        0x80, 201, 0x00, 0x01, 0, 0, 0, 2, // receiver report of ssrc 2
        0x8f, 205, 0x00, 0x01, 0, 0, 0, 3, // transport feedback, cut short
        0x80, 201, 0x00, 0x01, 0, 0, 0, 4, // receiver report of ssrc 4
    ];
    assert_eq!(parse_rtcp(&data), Some(vec![RtcpPacket::Rr { ssrc: 2, report_blocks: vec![] }]));
    // A packet of an unknown type with version 1.
    let data: [u8; 20] = [
        0x80, 201, 0x00, 0x01, 0, 0, 0, 2, // receiver report of ssrc 2
        0x40, 207, 0x00, 0x00, // version 1
        0x80, 201, 0x00, 0x01, 0, 0, 0, 4, // receiver report of ssrc 4
    ];
    assert_eq!(parse_rtcp(&data), Some(vec![rr]));
    // An application-defined packet that announces padding and has none.
    let data: [u8; 12] = [0xa0, 204, 0x00, 0x02, 0, 0, 0, 1, b'n', b'a', b'm', 0];
    assert_eq!(parse_rtcp(&data), Some(vec![]));
    // The same with one word of padding.
    let data: [u8; 16] = [0xa0, 204, 0x00, 0x03, 0, 0, 0, 1, b'n', b'a', b'm', b'e', 0, 0, 0, 4];
    assert_eq!(parse_rtcp(&data), Some(vec![RtcpPacket::Other]));
}

#[test]
fn private_item_gives_the_value_behind_its_prefix() {
    let data: [u8; 52] = [
        0x81, 0xca, 0x00, 0x0c, 0x12, 0x34, 0x56, 0x78, 0x01, 0x05, 0x63, 0x6e, 0x61, 0x6d, 0x65,
        0x02, 0x09, 0x46, 0x72, 0x61, 0x6e, 0xc3, 0xa7, 0x6f, 0x69, 0x73, 0x08, 0x16, 0x0b, 0x70,
        0x72, 0x69, 0x76, 0x2d, 0x70, 0x72, 0x65, 0x66, 0x69, 0x78, 0x70, 0x72, 0x69, 0x76, 0x2d,
        0x76, 0x61, 0x6c, 0x75, 0x65, 0x00, 0x00,
    ];
    assert_eq!(
        parse_rtcp(&data),
        Some(vec![
            RtcpPacket::Sdes { ssrc: 0x1234_5678, item: 1, value: "cname".to_string() },
            RtcpPacket::Sdes { ssrc: 0x1234_5678, item: 2, value: "François".to_string() },
            RtcpPacket::Sdes { ssrc: 0x1234_5678, item: 8, value: "priv-value".to_string() },
        ])
    );
}

#[test]
fn private_item_with_a_prefix_beyond_the_item_is_refused() {
    // The item is three bytes long and says that its prefix has five.
    let data: [u8; 16] = [
        0x81, 0xca, 0x00, 0x03, 0x12, 0x34, 0x56, 0x78, 0x08, 0x01, 0x05, 0x00, 0x00, 0x00, 0x00,
        0x00,
    ];
    assert_eq!(parse_rtcp(&data), Some(vec![]));
    // A private item without the length of its prefix.
    let data: [u8; 12] = [0x81, 0xca, 0x00, 0x02, 0x12, 0x34, 0x56, 0x78, 0x08, 0x00, 0x00, 0x00];
    assert_eq!(parse_rtcp(&data), Some(vec![]));
    // The prefix fills the item: the value is empty.
    let data: [u8; 12] = [0x81, 0xca, 0x00, 0x02, 0x12, 0x34, 0x56, 0x78, 0x08, 0x02, 0x01, b'p'];
    assert_eq!(
        parse_rtcp(&data),
        Some(vec![RtcpPacket::Sdes { ssrc: 0x1234_5678, item: 8, value: String::new() }])
    );
}

#[test]
fn item_that_is_no_text_is_left_out() {
    let data: [u8; 20] = [
        0x81, 202, 0x00, 0x04, // one chunk, five words
        0, 0, 0, 9, // ssrc 9
        2, 2, 0xff, 0xfe, // a name that is no UTF-8
        1, 3, b'b', b'o', b'b', 0, 0, 0, // cname
    ];
    assert_eq!(
        parse_rtcp(&data),
        Some(vec![RtcpPacket::Sdes { ssrc: 9, item: 1, value: "bob".to_string() }])
    );
}

#[test]
fn source_description_that_is_out_of_order_is_refused() {
    // An item that runs over the end of the packet.
    let data: [u8; 12] = [0x81, 202, 0x00, 0x02, 0, 0, 0, 9, 1, 3, b'b', b'o'];
    assert_eq!(parse_rtcp(&data), Some(vec![]));
    // Padding of a chunk that is not zero.
    let data: [u8; 12] = [0x81, 202, 0x00, 0x02, 0, 0, 0, 9, 1, 0, 0, 7];
    assert_eq!(parse_rtcp(&data), Some(vec![]));
    // Version 3.
    let data: [u8; 12] = [0xc1, 202, 0x00, 0x02, 0, 0, 0, 9, 1, 0, 0, 0];
    assert_eq!(parse_rtcp(&data), Some(vec![]));
    // In order: an empty canonical name.
    let data: [u8; 12] = [0x81, 202, 0x00, 0x02, 0, 0, 0, 9, 1, 0, 0, 0];
    assert_eq!(
        parse_rtcp(&data),
        Some(vec![RtcpPacket::Sdes { ssrc: 9, item: 1, value: String::new() }])
    );
    // A source description without chunks.
    assert_eq!(parse_rtcp(&[0x80, 202, 0x00, 0x00]), Some(vec![]));
}

#[test]
fn chunk_of_a_source_that_starts_with_zero_bytes() {
    let data: [u8; 28] = [
        0x82, 202, 0x00, 0x06, // two chunks, seven words
        0x11, 0, 0, 1, 1, 3, b'b', b'o', b'b', 0, 0, 0, // cname of the first
        0, 0, 0, 2, 1, 1, b'x', 0, 0, 0, 0, 0, // cname of ssrc 2, and a chunk of ssrc 0
    ];
    assert_eq!(
        parse_rtcp(&data),
        Some(vec![
            RtcpPacket::Sdes { ssrc: 0x1100_0001, item: 1, value: "bob".to_string() },
            RtcpPacket::Sdes { ssrc: 2, item: 1, value: "x".to_string() },
        ])
    );
}

#[test]
fn picture_loss_indication_byte_by_byte() {
    let mut s = Session::with_cname("alice");
    s.set_profile(RtpProfile::Avpf);
    s.set_reduced_size_rtcp(true);
    s.handle_send_all(&packet(0x0102_0304, 1, 0), 0);
    s.poll_rtcp_send_timeout_with(0, 0).unwrap();
    s.request_remote_key_unit(10 * MS, KeyUnitRequestType::Pli, 0xa0b0_c0d0);
    let bytes = s.poll_rtcp_send_with(10 * MS, 0, 0).unwrap();
    assert_eq!(bytes, vec![0x81, 206, 0, 2, 1, 2, 3, 4, 0xa0, 0xb0, 0xc0, 0xd0]);
}

#[test]
fn full_intra_request_byte_by_byte() {
    let mut s = Session::with_cname("alice");
    s.set_profile(RtpProfile::Avpf);
    s.set_reduced_size_rtcp(true);
    s.handle_send_all(&packet(0x0102_0304, 1, 0), 0);
    s.poll_rtcp_send_timeout_with(0, 0).unwrap();
    s.request_remote_key_unit(10 * MS, KeyUnitRequestType::Fir(0x105), 0xa0b0_c0d0);
    let bytes = s.poll_rtcp_send_with(10 * MS, 0, 0).unwrap();
    assert_eq!(
        bytes,
        vec![0x84, 206, 0, 4, 1, 2, 3, 4, 0, 0, 0, 0, 0xa0, 0xb0, 0xc0, 0xd0, 5, 0, 0, 0]
    );
}

#[test]
fn end_of_received_streams_gives_its_reason() {
    let mut s = Session::with_cname("alice");
    s.handle_send_all(&packet(7, 1, 0), 0);
    s.mark_bye(7, "gone");
    assert!(s.handle_recv_eos(SECOND));
    let bytes = s.poll_rtcp_send_with(SECOND, 0, 0).unwrap();
    let packets = parse(&bytes);
    match packets.last() {
        Some(Packet::Bye(bye)) => assert_eq!(bye.reason(), Some(&b"End of stream"[..])),
        other => panic!("unexpected packet {other:?}"),
    }
}

#[test]
fn source_description_items_are_read_one_by_one() {
    let data: [u8; 28] = [
        0x82, 202, 0x00, 0x06, // two chunks, seven words
        0x11, 0, 0, 1, 1, 3, b'b', b'o', b'b', 2, 1, b'B', 0, 0, 0, 0, // cname and name
        0x22, 0, 0, 2, 1, 1, b'x', 0, // cname
    ];
    assert_eq!(
        parse_rtcp(&data),
        Some(vec![
            RtcpPacket::Sdes { ssrc: 0x1100_0001, item: 1, value: "bob".to_string() },
            RtcpPacket::Sdes { ssrc: 0x1100_0001, item: 2, value: "B".to_string() },
            RtcpPacket::Sdes { ssrc: 0x2200_0002, item: 1, value: "x".to_string() },
        ])
    );
}

#[test]
fn sent_packets_are_read_by_the_receiver() {
    // Alice sends and asks Bob for a key frame; Bob reads what she sent.
    let mut alice = Session::with_cname("alice@example.org");
    alice.set_profile(RtpProfile::Avpf);
    alice.handle_send_all(&packet(7, 1, 1000), 0);
    alice.handle_recv_all(&packet(9, 100, 0), None, 0);
    alice.handle_recv_all(&packet(9, 101, 160), None, 0);
    alice.request_remote_key_unit(SECOND, KeyUnitRequestType::Pli, 9);
    alice.request_remote_key_unit(SECOND, KeyUnitRequestType::Fir(1), 9);
    let ntp_now = 0x0102_0304_0506_0708;
    let bytes = alice.poll_rtcp_send_with(SECOND, ntp_now, 0).unwrap();
    let packets = parse_rtcp(&bytes).unwrap();
    assert_eq!(packets.len(), 4);
    match &packets[0] {
        RtcpPacket::Sr { ssrc, info, report_blocks } => {
            assert_eq!(*ssrc, 7);
            assert_eq!(
                *info,
                SenderInfo {
                    ntp_timestamp: ntp_now,
                    rtp_timestamp: 1000,
                    packet_count: 1,
                    octet_count: 100
                }
            );
            assert_eq!(report_blocks.len(), 1);
            assert_eq!(report_blocks[0].ssrc, 9);
            assert_eq!(report_blocks[0].extended_sequence_number, 101);
        }
        other => panic!("unexpected packet {other:?}"),
    }
    assert_eq!(
        packets[1],
        RtcpPacket::Sdes { ssrc: 7, item: 1, value: "alice@example.org".to_string() }
    );
    assert_eq!(
        packets[2],
        RtcpPacket::PayloadFeedback { format: 1, sender_ssrc: 7, media_ssrc: 9, ssrcs: vec![] }
    );
    assert_eq!(
        packets[3],
        RtcpPacket::PayloadFeedback { format: 4, sender_ssrc: 7, media_ssrc: 0, ssrcs: vec![9] }
    );

    let mut bob = Session::with_cname("bob@example.org");
    bob.handle_send_all(&packet(9, 101, 160), 0);
    let replies = bob.handle_rtcp_recv(&packets, bytes.len(), None, SECOND, 0);
    assert_eq!(
        replies,
        vec![
            RtcpRecvReply::NewSsrc(7),
            RtcpRecvReply::NewRtpNtp((7, 1000, ntp_now)),
            RtcpRecvReply::NewCName(("alice@example.org".to_string(), 7)),
            RtcpRecvReply::RequestKeyUnit { ssrcs: vec![9], fir: false },
            RtcpRecvReply::RequestKeyUnit { ssrcs: vec![9], fir: true },
            RtcpRecvReply::TimerReconsideration,
        ]
    );
    // Alice's report block about Bob's source is kept with it.
    let blocks = bob.received_report_blocks(9);
    assert_eq!(blocks.len(), 1);
    assert_eq!(blocks[0].0, 7);
    assert_eq!(blocks[0].1.rb.extended_sequence_number, 101);
}

#[test]
fn goodbye_is_read_by_the_receiver() {
    let mut alice = Session::with_cname("alice");
    alice.handle_send_all(&packet(7, 1, 0), 0);
    alice.schedule_bye("End of Stream", SECOND);
    let bytes = alice.poll_rtcp_send_with(SECOND, 0, 0x55).unwrap();
    let packets = parse_rtcp(&bytes).unwrap();
    assert_eq!(packets.last(), Some(&RtcpPacket::Bye { ssrcs: vec![7] }));
}

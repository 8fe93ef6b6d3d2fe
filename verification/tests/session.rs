use rtpbin2::packet::{Address, ReportBlock, RtcpPacket, RtpPacket, SenderInfo};
use rtpbin2::session::{
    make_cname, KeyUnitRequestType, ReceivedRb, RecvReply, RequestRemoteKeyUnitReply,
    RtcpRecvReply, RtpProfile, SendReply, Session, RTCP_MIN_REPORT_INTERVAL,
};
use rtpbin2::source::SourceState;

const SECOND: u64 = 1_000_000_000;
const MS: u64 = 1_000_000;

fn packet(ssrc: u32, seq: u16, ts: u32) -> RtpPacket {
    RtpPacket { payload_type: 96, sequence_number: seq, timestamp: ts, ssrc, payload_len: 100 }
}

fn address(port: u16) -> Address {
    Address { ip: 0xffff_c0a8_0001, port }
}

fn sender_info(rtp: u32, ntp: u64) -> SenderInfo {
    SenderInfo { ntp_timestamp: ntp, rtp_timestamp: rtp, packet_count: 10, octet_count: 1000 }
}

fn block(about: u32) -> ReportBlock {
    ReportBlock {
        ssrc: about,
        fraction_lost: 3,
        cumulative_lost: 17,
        extended_sequence_number: 500,
        jitter: 9,
        last_sr_ntp_time: 0x1234_5678,
        delay_since_last_sr: 42,
    }
}

/// A session in which the remote source `ssrc` is valid after the packets
/// 100 and 101.
fn session_with_remote(ssrc: u32) -> Session {
    let mut s = Session::with_cname("alice@example.org");
    assert_eq!(
        s.handle_recv_all(&packet(ssrc, 100, 0), None, 0),
        vec![RecvReply::NewSsrc(ssrc, 96), RecvReply::Hold(0)]
    );
    assert_eq!(
        s.handle_recv_all(&packet(ssrc, 101, 160), None, 20 * MS),
        vec![RecvReply::Forward(0), RecvReply::Passthrough]
    );
    s
}

/// A session in which the local source `ssrc` has sent one packet.
fn session_with_sender(ssrc: u32) -> Session {
    let mut s = Session::with_cname("alice@example.org");
    assert_eq!(
        s.handle_send_all(&packet(ssrc, 1, 1000), 0),
        vec![SendReply::NewSsrc(ssrc, 96), SendReply::Passthrough]
    );
    s
}

#[test]
fn canonical_name_from_a_number() {
    assert_eq!(make_cname(0x1234_abcd), "user1234abcd@rtpbin2");
    assert_eq!(make_cname(0), "user00000000@rtpbin2");
    assert_eq!(make_cname(u32::MAX), "userffffffff@rtpbin2");
    assert_eq!(make_cname(0x0f00_0090), "user0f000090@rtpbin2");
    let s = Session::new();
    assert_eq!(s.cname().len(), 20);
    assert!(s.cname().starts_with("user"));
    assert!(s.cname().ends_with("@rtpbin2"));
    assert_eq!(Session::with_cname("bob").cname(), "bob");
}

#[test]
fn new_session_is_empty() {
    let s = Session::with_cname("alice");
    assert!(s.ssrcs().is_empty());
    assert_eq!(s.internal_ssrc(), None);
    assert_eq!(s.next_rtcp_send(), None);
    assert_eq!(s.avg_rtcp_size(), 100);
    assert_eq!(s.interval(), RTCP_MIN_REPORT_INTERVAL / 2);
    assert_eq!(RtpProfile::default(), RtpProfile::Avp);
}

#[test]
fn new_source_is_held_until_valid() {
    let mut s = Session::with_cname("alice");
    let from = Some(address(5004));
    assert_eq!(s.handle_recv(&packet(1, 100, 0), from, 0), RecvReply::NewSsrc(1, 96));
    assert_eq!(s.handle_recv(&packet(1, 100, 0), from, 0), RecvReply::Hold(0));
    let source = s.remote_send_source_by_ssrc(1).unwrap();
    assert_eq!(source.state(), SourceState::Initial);
    assert_eq!(source.rtp_from(), from);
    assert_eq!(s.held().len(), 1);
    assert_eq!(s.handle_recv(&packet(1, 101, 160), from, 20 * MS), RecvReply::Forward(0));
    assert_eq!(s.handle_recv(&packet(1, 101, 160), from, 20 * MS), RecvReply::Passthrough);
    let source = s.remote_send_source_by_ssrc(1).unwrap();
    assert_eq!(source.state(), SourceState::Active);
    assert_eq!(source.packet_count(), 2);
    assert_eq!(source.octet_count(), 200);
    assert_eq!(source.payload_type(), Some(96));
    assert!(s.held().is_empty());
    // From now on packets pass at once.
    assert_eq!(s.handle_recv(&packet(1, 102, 320), from, 40 * MS), RecvReply::Passthrough);
    assert_eq!(s.ssrcs(), vec![1]);
}

#[test]
fn broken_run_starts_probation_again() {
    let mut s = Session::with_cname("alice");
    assert_eq!(
        s.handle_recv_all(&packet(1, 100, 0), None, 0),
        vec![RecvReply::NewSsrc(1, 96), RecvReply::Hold(0)]
    );
    assert_eq!(
        s.handle_recv_all(&packet(1, 105, 800), None, 0),
        vec![RecvReply::Drop(0), RecvReply::Hold(1)]
    );
    assert_eq!(s.remote_send_source_by_ssrc(1).unwrap().packet_count(), 1);
    assert_eq!(
        s.handle_recv_all(&packet(1, 106, 960), None, 0),
        vec![RecvReply::Forward(1), RecvReply::Passthrough]
    );
    assert_eq!(s.remote_send_source_by_ssrc(1).unwrap().packet_count(), 2);
}

#[test]
fn sources_are_held_apart() {
    let mut s = Session::with_cname("alice");
    assert_eq!(
        s.handle_recv_all(&packet(1, 10, 0), None, 0),
        vec![RecvReply::NewSsrc(1, 96), RecvReply::Hold(0)]
    );
    assert_eq!(
        s.handle_recv_all(&packet(2, 70, 0), None, 0),
        vec![RecvReply::NewSsrc(2, 96), RecvReply::Hold(1)]
    );
    assert_eq!(
        s.handle_recv_all(&packet(2, 71, 0), None, 0),
        vec![RecvReply::Forward(1), RecvReply::Passthrough]
    );
    assert_eq!(s.held().len(), 1);
    assert_eq!(s.held()[0].ssrc, 1);
    assert_eq!(s.held()[0].id, 0);
    assert_eq!(
        s.handle_recv_all(&packet(1, 11, 0), None, 0),
        vec![RecvReply::Forward(0), RecvReply::Passthrough]
    );
}

#[test]
fn duplicate_of_the_newest_packet_is_ignored() {
    let mut s = session_with_remote(1);
    assert_eq!(s.handle_recv(&packet(1, 101, 160), None, 21 * MS), RecvReply::Ignore);
    assert_eq!(s.remote_send_source_by_ssrc(1).unwrap().packet_count(), 2);
}

#[test]
fn reordered_packets_pass() {
    let mut s = session_with_remote(1);
    assert_eq!(s.handle_recv(&packet(1, 103, 480), None, 60 * MS), RecvReply::Passthrough);
    assert_eq!(s.handle_recv(&packet(1, 102, 320), None, 61 * MS), RecvReply::Passthrough);
    let source = s.remote_send_source_by_ssrc(1).unwrap();
    assert_eq!(source.packet_count(), 4);
    assert_eq!(source.packets_lost(), 0);
}

#[test]
fn far_jump_needs_a_second_packet() {
    let mut s = session_with_remote(1);
    assert_eq!(s.handle_recv(&packet(1, 5000, 0), None, SECOND), RecvReply::Ignore);
    // Something else in between: still ignored.
    assert_eq!(s.handle_recv(&packet(1, 7000, 0), None, SECOND), RecvReply::Ignore);
    assert_eq!(s.handle_recv(&packet(1, 7001, 0), None, SECOND), RecvReply::Passthrough);
    let source = s.remote_send_source_by_ssrc(1).unwrap();
    assert_eq!(source.packet_count(), 1);
    assert_eq!(source.packets_lost(), 0);
    assert_eq!(s.handle_recv(&packet(1, 7002, 0), None, SECOND), RecvReply::Passthrough);
}

#[test]
fn far_jump_backwards_is_ignored() {
    let mut s = session_with_remote(1);
    assert_eq!(s.handle_recv(&packet(1, 60000, 0), None, SECOND), RecvReply::Ignore);
    assert_eq!(s.handle_recv(&packet(1, 102, 320), None, SECOND), RecvReply::Passthrough);
}

#[test]
fn dropout_counts_as_loss() {
    let mut s = session_with_remote(1);
    assert_eq!(s.handle_recv(&packet(1, 3100, 0), None, SECOND), RecvReply::Passthrough);
    let source = s.remote_send_source_by_ssrc(1).unwrap();
    assert_eq!(source.expected(), 3001);
    assert_eq!(source.packets_lost(), 2998);
}

#[test]
fn packet_with_local_ssrc_is_a_collision() {
    let mut s = session_with_sender(7);
    assert_eq!(s.handle_recv(&packet(7, 1, 0), Some(address(9)), 0), RecvReply::SsrcCollision(7));
    assert_eq!(s.handle_recv(&packet(7, 1, 0), Some(address(9)), 0), RecvReply::Ignore);
    assert_eq!(
        s.handle_recv_all(&packet(7, 2, 0), None, 0),
        vec![RecvReply::SsrcCollision(7), RecvReply::Ignore]
    );
    assert_eq!(s.local_send_source_by_ssrc(7).unwrap().packet_count(), 1);
}

#[test]
fn packet_from_another_address_is_ignored() {
    let mut s = Session::with_cname("alice");
    let here = Some(address(5004));
    let there = Some(address(6000));
    assert_eq!(
        s.handle_recv_all(&packet(1, 100, 0), here, 0),
        vec![RecvReply::NewSsrc(1, 96), RecvReply::Hold(0)]
    );
    assert_eq!(s.handle_recv_all(&packet(1, 101, 0), there, 0), vec![RecvReply::Ignore]);
    assert_eq!(
        s.handle_recv_all(&packet(1, 101, 0), here, 0),
        vec![RecvReply::Forward(0), RecvReply::Passthrough]
    );
    // Without an address nothing is compared.
    assert_eq!(s.handle_recv_all(&packet(1, 102, 0), None, 0), vec![RecvReply::Passthrough]);
}

#[test]
fn sent_packets_are_counted() {
    let mut s = Session::with_cname("alice");
    assert_eq!(s.handle_send(&packet(7, 1, 1000), 5), SendReply::NewSsrc(7, 96));
    assert_eq!(s.handle_send(&packet(7, 1, 1000), 5), SendReply::Passthrough);
    assert_eq!(s.handle_send(&packet(7, 2, 1160), SECOND + 5), SendReply::Passthrough);
    let source = s.local_send_source_by_ssrc(7).unwrap();
    assert_eq!(source.ssrc(), 7);
    assert_eq!(source.state(), SourceState::Active);
    assert_eq!(source.packet_count(), 2);
    assert_eq!(source.octet_count(), 200);
    // 200 bytes in one second.
    assert_eq!(source.bitrate(), 1600);
    assert_eq!(s.local_receive_source_by_ssrc(7), None);
    assert_eq!(s.remote_send_source_by_ssrc(7), None);
    assert_eq!(s.remote_receive_source_by_ssrc(7), None);
    assert_eq!(s.source_by_ssrc(7), Some(source));
    assert_eq!(s.source_by_ssrc(8), None);
}

#[test]
fn sending_with_a_remote_ssrc_is_a_collision() {
    let mut s = session_with_remote(1);
    assert_eq!(s.handle_send(&packet(1, 1, 0), 0), SendReply::SsrcCollision(1));
    assert_eq!(s.handle_send(&packet(1, 1, 0), 0), SendReply::Drop);
    assert_eq!(
        s.handle_send_all(&packet(1, 2, 0), 0),
        vec![SendReply::SsrcCollision(1), SendReply::Drop]
    );
}

#[test]
fn source_that_leaves_sends_no_more() {
    let mut s = session_with_sender(7);
    s.mark_bye(7, "done");
    assert_eq!(s.local_send_source_by_ssrc(7).unwrap().state(), SourceState::Bye);
    assert_eq!(s.handle_send_all(&packet(7, 2, 0), 0), vec![SendReply::Drop]);
    // No local source: nothing happens.
    s.mark_bye(99, "done");
    assert_eq!(s.ssrcs(), vec![7]);
}

#[test]
fn clock_rate_of_payload_types() {
    let mut s = Session::with_cname("alice");
    assert_eq!(s.clock_rate_from_pt(96), None);
    s.set_pt_clock_rate(96, 90000);
    s.set_pt_clock_rate(0, 8000);
    assert_eq!(s.clock_rate_from_pt(96), Some(90000));
    assert_eq!(s.clock_rate_from_pt(0), Some(8000));
    s.set_pt_clock_rate(96, 48000);
    assert_eq!(s.clock_rate_from_pt(96), Some(48000));
    assert_eq!(s.clock_rate_from_pt(97), None);
}

#[test]
fn jitter_follows_arrival_spacing() {
    let mut s = Session::with_cname("alice");
    s.set_pt_clock_rate(96, 8000);
    s.handle_recv_all(&packet(1, 100, 0), None, 0);
    s.handle_recv_all(&packet(1, 101, 160), None, 20 * MS);
    assert_eq!(s.remote_send_source_by_ssrc(1).unwrap().jitter(), 0);
    // 30 ms after the last packet, 20 ms by its timestamp: 80 ticks off.
    s.handle_recv_all(&packet(1, 102, 320), None, 50 * MS);
    assert_eq!(s.remote_send_source_by_ssrc(1).unwrap().jitter(), 5);
    // On time again: the estimate decays.
    s.handle_recv_all(&packet(1, 103, 480), None, 70 * MS);
    assert_eq!(s.remote_send_source_by_ssrc(1).unwrap().jitter(), 4);
}

#[test]
fn sender_report_and_cname_are_told() {
    let mut s = Session::with_cname("alice");
    let rtcp = vec![
        RtcpPacket::Sr { ssrc: 1, info: sender_info(8000, 100 << 32), report_blocks: vec![] },
        RtcpPacket::Sdes { ssrc: 1, item: 1, value: "bob@example.org".to_string() },
    ];
    let replies = s.handle_rtcp_recv(&rtcp, 60, Some(address(5005)), SECOND, 7);
    assert_eq!(
        replies,
        vec![
            RtcpRecvReply::NewSsrc(1),
            RtcpRecvReply::NewRtpNtp((1, 8000, 100 << 32)),
            RtcpRecvReply::NewCName(("bob@example.org".to_string(), 1)),
            RtcpRecvReply::TimerReconsideration,
        ]
    );
    let source = s.remote_send_source_by_ssrc(1).unwrap();
    assert_eq!(source.state(), SourceState::Active);
    assert_eq!(source.last_received_sr(), Some(sender_info(8000, 100 << 32)));
    assert_eq!(source.last_sent_sr(), None);
    assert_eq!(source.rtcp_from(), Some(address(5005)));
    assert_eq!(source.rtp_from(), None);
    // A source that reports is valid: its packets pass without probation.
    assert_eq!(s.handle_recv_all(&packet(1, 1, 0), None, SECOND), vec![RecvReply::Passthrough]);
    // (60 + 15 * 100) / 16 = 97
    assert_eq!(s.avg_rtcp_size(), 97);
    // (260 + 15 * 97) / 16 = 107
    let replies = s.handle_rtcp_recv(&vec![], 260, None, SECOND, 7);
    assert_eq!(replies, vec![RtcpRecvReply::TimerReconsideration]);
    assert_eq!(s.avg_rtcp_size(), 107);
}

#[test]
fn receiver_report_makes_a_receiver_known() {
    let mut s = Session::with_cname("alice");
    let rtcp = vec![RtcpPacket::Rr { ssrc: 2, report_blocks: vec![] }];
    assert_eq!(
        s.handle_rtcp_recv(&rtcp, 8, None, 0, 0),
        vec![RtcpRecvReply::NewSsrc(2), RtcpRecvReply::TimerReconsideration]
    );
    let source = s.remote_receive_source_by_ssrc(2).unwrap();
    assert_eq!(source.state(), SourceState::Active);
    assert_eq!(
        s.handle_rtcp_recv(&rtcp, 8, None, 0, 0),
        vec![RtcpRecvReply::TimerReconsideration]
    );
}

#[test]
fn report_from_a_local_ssrc_is_a_collision() {
    let mut s = session_with_sender(7);
    let rtcp = vec![
        RtcpPacket::Sr { ssrc: 7, info: sender_info(0, 0), report_blocks: vec![block(7)] },
        RtcpPacket::Rr { ssrc: 7, report_blocks: vec![] },
        RtcpPacket::Sdes { ssrc: 7, item: 1, value: "mallory".to_string() },
    ];
    assert_eq!(
        s.handle_rtcp_recv(&rtcp, 100, None, 0, 0),
        vec![
            RtcpRecvReply::SsrcCollision(7),
            RtcpRecvReply::SsrcCollision(7),
            RtcpRecvReply::TimerReconsideration
        ]
    );
    assert!(s.received_report_blocks(7).is_empty());
}

#[test]
fn report_blocks_about_local_sources_are_kept() {
    let mut s = session_with_sender(7);
    let rtcp = vec![RtcpPacket::Rr { ssrc: 2, report_blocks: vec![block(7), block(9)] }];
    s.handle_rtcp_recv(&rtcp, 56, None, 5 * SECOND, 77);
    let expected = ReceivedRb { rb: block(7), receive_time: 5 * SECOND, receive_ntp_time: 77 };
    assert_eq!(s.received_report_blocks(7), vec![(2, expected)]);
    assert!(s.received_report_blocks(9).is_empty());
    // A later block from the same reporter takes the place of the first,
    // one from another reporter comes behind it.
    let mut newer = block(7);
    newer.cumulative_lost = 18;
    let rtcp = vec![
        RtcpPacket::Rr { ssrc: 2, report_blocks: vec![newer] },
        RtcpPacket::Sr { ssrc: 3, info: sender_info(0, 0), report_blocks: vec![block(7)] },
    ];
    s.handle_rtcp_recv(&rtcp, 56, None, 6 * SECOND, 78);
    let blocks = s.received_report_blocks(7);
    assert_eq!(blocks.len(), 2);
    assert_eq!(blocks[0].0, 2);
    assert_eq!(blocks[0].1.rb.cumulative_lost, 18);
    assert_eq!(blocks[0].1.receive_time, 6 * SECOND);
    assert_eq!(blocks[1].0, 3);
}

#[test]
fn goodbye_marks_remote_sources() {
    let mut s = session_with_remote(1);
    s.handle_send_all(&packet(7, 1, 0), 0);
    let rtcp = vec![RtcpPacket::Bye { ssrcs: vec![1, 7, 99] }];
    assert_eq!(
        s.handle_rtcp_recv(&rtcp, 12, None, 0, 0),
        vec![RtcpRecvReply::TimerReconsideration]
    );
    assert_eq!(s.remote_send_source_by_ssrc(1).unwrap().state(), SourceState::Bye);
    assert_eq!(s.local_send_source_by_ssrc(7).unwrap().state(), SourceState::Active);
    assert_eq!(s.ssrcs(), vec![1, 7]);
    // A source that has left is ignored.
    assert_eq!(s.handle_recv_all(&packet(1, 102, 0), None, 0), vec![RecvReply::Ignore]);
}

#[test]
fn feedback_asks_for_key_units() {
    let mut s = session_with_sender(7);
    let feedback = |format: u8, media_ssrc: u32, ssrcs: Vec<u32>| RtcpPacket::PayloadFeedback {
        format,
        sender_ssrc: 2,
        media_ssrc,
        ssrcs,
    };
    let rtcp = vec![
        feedback(1, 7, vec![]),
        feedback(1, 8, vec![]),
        feedback(4, 0, vec![8, 7]),
        feedback(4, 0, vec![8]),
        // Neither an indication of picture loss nor a request.
        feedback(2, 7, vec![7]),
        RtcpPacket::Other,
    ];
    assert_eq!(
        s.handle_rtcp_recv(&rtcp, 100, None, 0, 0),
        vec![
            RtcpRecvReply::RequestKeyUnit { ssrcs: vec![7], fir: false },
            RtcpRecvReply::RequestKeyUnit { ssrcs: vec![7], fir: true },
            RtcpRecvReply::TimerReconsideration,
        ]
    );
}

#[test]
fn no_deadline_without_sources() {
    let mut s = Session::with_cname("alice");
    assert_eq!(s.poll_rtcp_send_timeout_with(SECOND, 0), None);
    assert_eq!(s.poll_rtcp_send_timeout(SECOND), None);
    assert_eq!(s.poll_rtcp_send_with(u64::MAX, 0, 0), None);
    assert_eq!(s.poll_rtcp_send(u64::MAX, 0), None);
}

#[test]
fn first_deadline_is_within_the_halved_interval() {
    // Before the first report the shortest interval is halved: 2.5 s.
    let mut s = session_with_sender(7);
    assert_eq!(s.interval(), 2_500_000_000);
    assert_eq!(s.poll_rtcp_send_timeout_with(SECOND, 0), Some(SECOND + 1_250_000_000));
    // The deadline stands, whatever is drawn later.
    assert_eq!(s.poll_rtcp_send_timeout_with(2 * SECOND, u32::MAX), Some(SECOND + 1_250_000_000));
    assert_eq!(s.next_rtcp_send(), Some(SECOND + 1_250_000_000));

    let mut s = session_with_sender(7);
    assert_eq!(s.poll_rtcp_send_timeout_with(SECOND, 0x8000_0000), Some(SECOND + 2_500_000_000));

    let mut s = session_with_sender(7);
    assert_eq!(s.poll_rtcp_send_timeout_with(SECOND, u32::MAX), Some(SECOND + 3_749_999_999));

    let mut s = session_with_sender(7);
    let deadline = s.poll_rtcp_send_timeout(SECOND).unwrap();
    assert!(deadline >= SECOND + 1_250_000_000);
    assert!(deadline <= SECOND + 3_750_000_000);
}

#[test]
fn interval_follows_configuration_and_traffic() {
    let mut s = session_with_sender(7);
    s.set_min_rtcp_interval(SECOND);
    assert_eq!(s.interval(), SECOND / 2);
    s.set_profile(RtpProfile::Avpf);
    assert_eq!(s.interval(), SECOND / 2);
    s.set_reduced_size_rtcp(true);
    assert_eq!(s.interval(), SECOND / 4);
    s.set_profile(RtpProfile::Avp);
    assert_eq!(s.interval(), SECOND / 2);
    // One member that may send 100 bytes at 10 bytes per second: 10 s.
    s.set_rtcp_bandwidth(10);
    assert_eq!(s.interval(), 10 * SECOND);
    // Three receivers join: the one sender has a quarter of the bandwidth
    // (2 bytes per second) for itself: 50 s.
    for ssrc in [2, 3, 4] {
        s.handle_rtcp_recv(&vec![RtcpPacket::Rr { ssrc, report_blocks: vec![] }], 100, None, 0, 0);
    }
    assert_eq!(s.avg_rtcp_size(), 100);
    assert_eq!(s.interval(), 50 * SECOND);
    // Without bandwidth the shortest interval holds.
    s.set_rtcp_bandwidth(0);
    assert_eq!(s.interval(), SECOND / 2);
}

#[test]
fn receivers_share_three_quarters_of_the_bandwidth() {
    let mut s = Session::with_cname("alice");
    s.set_min_rtcp_interval(0);
    s.set_rtcp_bandwidth(100);
    for ssrc in [2, 3, 4, 5] {
        s.handle_rtcp_recv(&vec![RtcpPacket::Rr { ssrc, report_blocks: vec![] }], 100, None, 0, 0);
    }
    // Four receivers at 75 bytes per second, 100 bytes each.
    assert_eq!(s.interval(), 4 * 100 * SECOND / 75);
}

#[test]
fn rtcp_arrival_sets_a_regular_deadline_aside() {
    let mut s = session_with_sender(7);
    assert_eq!(s.poll_rtcp_send_timeout_with(SECOND, 0), Some(SECOND + 1_250_000_000));
    s.handle_rtcp_recv(&vec![], 100, None, 2 * SECOND, 0);
    assert_eq!(s.next_rtcp_send(), None);
    // The new deadline counts from the start of the schedule, not from now.
    assert_eq!(s.poll_rtcp_send_timeout_with(2 * SECOND, 0x8000_0000), Some(SECOND + 2_500_000_000));
}

#[test]
fn end_of_received_streams_waits_for_local_senders() {
    let mut s = session_with_sender(7);
    assert!(!s.handle_recv_eos(SECOND));
    assert_eq!(s.next_rtcp_send(), None);
    assert_eq!(s.local_send_source_by_ssrc(7).unwrap().state(), SourceState::Active);
    s.mark_bye(7, "End of Stream");
    assert!(s.handle_recv_eos(2 * SECOND));
    assert_eq!(s.next_rtcp_send(), Some(2 * SECOND));
}

#[test]
fn end_of_sent_streams_waits_for_local_receivers() {
    let mut s = session_with_sender(7);
    assert!(s.add_local_receive_source(8));
    assert!(!s.add_local_receive_source(8));
    assert!(!s.handle_send_eos(SECOND));
    assert_eq!(s.local_send_source_by_ssrc(7).unwrap().state(), SourceState::Bye);
    assert_eq!(s.local_receive_source_by_ssrc(8).unwrap().state(), SourceState::Active);
    assert_eq!(s.next_rtcp_send(), None);
    s.mark_bye(8, "End of Stream");
    assert!(s.handle_send_eos(2 * SECOND));
    assert_eq!(s.next_rtcp_send(), Some(2 * SECOND));
}

#[test]
fn goodbye_of_the_session_is_due_at_once() {
    let mut s = session_with_sender(7);
    s.handle_send_all(&packet(8, 1, 0), 0);
    s.schedule_bye("End of Stream", 3 * SECOND);
    assert_eq!(s.local_send_source_by_ssrc(7).unwrap().state(), SourceState::Bye);
    assert_eq!(s.local_send_source_by_ssrc(8).unwrap().state(), SourceState::Bye);
    assert_eq!(s.poll_rtcp_send_timeout_with(3 * SECOND, 0), Some(3 * SECOND));
    // Received RTCP does not put the goodbye off.
    s.handle_rtcp_recv(&vec![], 100, None, 3 * SECOND, 0);
    assert_eq!(s.next_rtcp_send(), Some(3 * SECOND));
}

#[test]
fn key_unit_request_is_early_with_avpf_only() {
    let mut s = session_with_remote(1);
    assert_eq!(
        s.request_remote_key_unit(SECOND, KeyUnitRequestType::Pli, 1),
        vec![RequestRemoteKeyUnitReply::TimerReconsideration]
    );
    assert_eq!(s.next_rtcp_send(), None);

    let mut s = session_with_remote(1);
    s.set_profile(RtpProfile::Avpf);
    assert_eq!(s.poll_rtcp_send_timeout_with(SECOND, 0), Some(SECOND + 1_250_000_000));
    s.request_remote_key_unit(2 * SECOND, KeyUnitRequestType::Fir(1), 1);
    assert_eq!(s.next_rtcp_send(), Some(2 * SECOND));
    // A deadline that has passed already stays.
    s.request_remote_key_unit(3 * SECOND, KeyUnitRequestType::Pli, 1);
    assert_eq!(s.next_rtcp_send(), Some(2 * SECOND));
}

#[test]
fn statistics_of_sources() {
    let mut s = session_with_remote(1);
    s.set_pt_clock_rate(96, 8000);
    s.handle_send_all(&packet(7, 1, 0), 0);
    s.handle_rtcp_recv(&vec![RtcpPacket::Rr { ssrc: 2, report_blocks: vec![] }], 8, None, 0, 0);
    s.add_local_receive_source(8);
    let stats = s.stats();
    assert_eq!(stats.len(), 4);
    assert_eq!((stats[0].ssrc, stats[0].sender, stats[0].local), (1, true, false));
    assert_eq!(stats[0].packets, Some(2));
    assert_eq!(stats[0].octets, Some(200));
    assert_eq!(stats[0].bitrate, Some(200 * 8 * 50));
    assert_eq!(stats[0].jitter, Some(0));
    assert_eq!(stats[0].packets_lost, Some(0));
    assert_eq!(stats[0].clock_rate, Some(8000));
    assert_eq!(stats[0].sr, None);
    assert_eq!((stats[1].ssrc, stats[1].sender, stats[1].local), (7, true, true));
    assert_eq!(stats[1].packets, Some(1));
    assert_eq!(stats[1].jitter, None);
    assert_eq!(stats[1].packets_lost, None);
    assert_eq!(stats[1].clock_rate, Some(8000));
    assert_eq!((stats[2].ssrc, stats[2].sender, stats[2].local), (2, false, false));
    assert_eq!(stats[2].packets, None);
    assert_eq!(stats[2].clock_rate, None);
    assert_eq!((stats[3].ssrc, stats[3].sender, stats[3].local), (8, false, true));
    assert_eq!(stats[3].packets, None);
}

#[test]
fn configuration_is_fixed_once_the_schedule_has_begun() {
    let mut s = session_with_sender(7);
    assert!(s.can_configure());
    s.set_min_rtcp_interval(2 * SECOND);
    assert_eq!(s.interval(), SECOND);
    assert_eq!(s.poll_rtcp_send_timeout_with(0, 0x8000_0000), Some(SECOND));
    assert!(!s.can_configure());
    s.set_min_rtcp_interval(20 * SECOND);
    s.set_profile(RtpProfile::Avpf);
    s.set_reduced_size_rtcp(true);
    assert_eq!(s.interval(), SECOND);
    // Without early feedback a request waits for the regular report.
    s.request_remote_key_unit(0, KeyUnitRequestType::Pli, 1);
    assert_eq!(s.next_rtcp_send(), Some(SECOND));
}

#[test]
fn new_source_has_the_deadline_worked_out_again() {
    let mut s = session_with_sender(7);
    assert_eq!(s.poll_rtcp_send_timeout_with(0, 0), Some(1_250_000_000));
    // A packet of a known source changes nothing.
    s.handle_send_all(&packet(7, 2, 0), 0);
    assert_eq!(s.next_rtcp_send(), Some(1_250_000_000));
    s.handle_recv_all(&packet(1, 1, 0), None, 0);
    assert_eq!(s.next_rtcp_send(), None);
    assert_eq!(s.poll_rtcp_send_timeout_with(SECOND, 0x8000_0000), Some(2_500_000_000));
    s.handle_send_all(&packet(8, 1, 0), 0);
    assert_eq!(s.next_rtcp_send(), None);
    assert_eq!(s.poll_rtcp_send_timeout_with(SECOND, 0), Some(1_250_000_000));
    s.mark_bye(8, "done");
    assert_eq!(s.next_rtcp_send(), None);
    // The goodbye of the session is not put off.
    s.schedule_bye("done", 3 * SECOND);
    s.handle_recv_all(&packet(2, 1, 0), None, 0);
    assert_eq!(s.next_rtcp_send(), Some(3 * SECOND));
}

#[test]
fn other_source_description_items_are_passed_over() {
    let mut s = Session::with_cname("alice");
    let rtcp = vec![
        RtcpPacket::Sdes { ssrc: 1, item: 2, value: "Bob".to_string() },
        RtcpPacket::Sdes { ssrc: 1, item: 6, value: "some tool".to_string() },
    ];
    assert_eq!(
        s.handle_rtcp_recv(&rtcp, 40, None, 0, 0),
        vec![RtcpRecvReply::TimerReconsideration]
    );
    assert!(s.ssrcs().is_empty());
}

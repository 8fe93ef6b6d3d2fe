use rtpbin2::packet::{RtcpPacket, RtpPacket, SenderInfo};
use rtpbin2::receiver::{Receiver, RecvAction, StreamPoll};
use rtpbin2::session::Session;

const MS: u64 = 1_000_000;

fn packet(ssrc: u32, seq: u16, ts: u32) -> RtpPacket {
    RtpPacket { payload_type: 96, sequence_number: seq, timestamp: ts, ssrc, payload_len: 100 }
}

/// A receiver with 200 ms of latency in which the remote source `ssrc` is
/// valid because it has sent a report.
fn receiver_with_source(ssrc: u32) -> Receiver {
    let mut r = Receiver::new(Session::with_cname("alice"), 200 * MS);
    let report = vec![RtcpPacket::Sr {
        ssrc,
        info: SenderInfo { ntp_timestamp: 0, rtp_timestamp: 0, packet_count: 0, octet_count: 0 },
        report_blocks: vec![],
    }];
    r.session_mut().handle_rtcp_recv(&report, 28, None, 0, 0);
    r
}

fn queued(stream: usize, new_stream: bool, id: usize) -> RecvAction {
    RecvAction::Queued { held: None, stream, new_stream, id }
}

#[test]
fn packets_out_of_order_are_released_in_order() {
    let mut r = receiver_with_source(1);
    // Sequence numbers 1, 3, 2 at 20 ms a frame.
    assert_eq!(r.receive_rtp(&packet(1, 1, 0), 0, None, 0), vec![queued(0, true, 0)]);
    assert_eq!(
        r.receive_rtp(&packet(1, 3, 320), 40 * MS, None, 40 * MS),
        vec![queued(0, false, 1)]
    );
    assert_eq!(
        r.receive_rtp(&packet(1, 2, 160), 20 * MS, None, 45 * MS),
        vec![queued(0, false, 2)]
    );
    assert_eq!(r.stream_count(), 1);
    assert_eq!(r.stream_key(0), Some((96, 1)));
    // The output does not take packets yet.
    assert_eq!(r.poll(300 * MS), StreamPoll::Pending);
    r.set_active(0, true);
    assert_eq!(r.poll(100 * MS), StreamPoll::Timeout(200 * MS));
    assert_eq!(r.poll(300 * MS), StreamPoll::Forward { stream: 0, id: 0, discont: false });
    assert_eq!(r.poll(300 * MS), StreamPoll::Forward { stream: 0, id: 2, discont: false });
    assert_eq!(r.poll(300 * MS), StreamPoll::Forward { stream: 0, id: 1, discont: false });
    assert_eq!(r.poll(300 * MS), StreamPoll::Pending);
    assert_eq!(r.jitterbuffer_stats(0).unwrap().num_pushed, 3);
}

#[test]
fn duplicate_after_forwarding_is_dropped() {
    let mut r = receiver_with_source(1);
    r.receive_rtp(&packet(1, 4, 0), 0, None, 0);
    r.receive_rtp(&packet(1, 5, 160), 20 * MS, None, 20 * MS);
    r.receive_rtp(&packet(1, 6, 320), 40 * MS, None, 40 * MS);
    r.set_active(0, true);
    assert_eq!(r.poll(220 * MS), StreamPoll::Forward { stream: 0, id: 0, discont: false });
    assert_eq!(r.poll(220 * MS), StreamPoll::Forward { stream: 0, id: 1, discont: false });
    assert_eq!(r.jitterbuffer_stats(0).unwrap().num_pushed, 2);
    // Number 5 once more: the session lets it pass, the jitter buffer
    // knows it.
    assert_eq!(
        r.receive_rtp(&packet(1, 5, 160), 20 * MS, None, 225 * MS),
        vec![RecvAction::Duplicate { held: None, stream: 0, new_stream: false }]
    );
    let stats = r.jitterbuffer_stats(0).unwrap();
    assert_eq!(stats.num_pushed, 2);
    assert_eq!(stats.num_duplicates, 1);
    assert_eq!(stats.size, 1);
    assert_eq!(r.poll(240 * MS), StreamPoll::Forward { stream: 0, id: 2, discont: false });
    assert_eq!(r.poll(240 * MS), StreamPoll::Pending);
    // The newest number once more: the session itself ignores it.
    assert_eq!(r.receive_rtp(&packet(1, 6, 320), 40 * MS, None, 250 * MS), vec![RecvAction::Ignore]);
    assert_eq!(r.jitterbuffer_stats(0).unwrap().num_pushed, 3);
}

#[test]
fn held_packets_are_queued_once_the_source_is_valid() {
    let mut r = Receiver::new(Session::with_cname("alice"), 100 * MS);
    assert_eq!(r.latency(), 100 * MS);
    assert_eq!(
        r.receive_rtp(&packet(1, 10, 0), 0, None, 0),
        vec![RecvAction::NewSsrc(1, 96), RecvAction::Hold(0)]
    );
    assert_eq!(r.held_packets(), 1);
    assert_eq!(r.stream_count(), 0);
    assert_eq!(
        r.receive_rtp(&packet(1, 11, 160), 20 * MS, None, 20 * MS),
        vec![
            RecvAction::Queued { held: Some(0), stream: 0, new_stream: true, id: 0 },
            RecvAction::Queued { held: None, stream: 0, new_stream: false, id: 1 },
        ]
    );
    assert_eq!(r.held_packets(), 0);
    r.set_active(0, true);
    // Both came into the buffer at 20 ms and are held for the latency and
    // no longer.
    assert_eq!(r.poll(0), StreamPoll::Timeout(120 * MS));
    assert_eq!(r.poll(120 * MS), StreamPoll::Forward { stream: 0, id: 0, discont: false });
    assert_eq!(r.poll(120 * MS), StreamPoll::Forward { stream: 0, id: 1, discont: false });
    assert_eq!(r.poll(120 * MS), StreamPoll::Pending);
}

#[test]
fn held_packets_are_dropped_when_the_run_breaks() {
    let mut r = Receiver::new(Session::with_cname("alice"), 100 * MS);
    r.receive_rtp(&packet(1, 10, 0), 0, None, 0);
    assert_eq!(
        r.receive_rtp(&packet(1, 20, 160), 20 * MS, None, 20 * MS),
        vec![RecvAction::Drop(0), RecvAction::Hold(1)]
    );
    assert_eq!(r.held_packets(), 1);
    assert_eq!(r.session().held().len(), 1);
}

#[test]
fn streams_are_told_apart_by_payload_type_and_ssrc() {
    let mut r = receiver_with_source(1);
    let mut other = packet(1, 1, 0);
    other.payload_type = 97;
    assert_eq!(r.receive_rtp(&packet(1, 1, 0), 0, None, 0), vec![queued(0, true, 0)]);
    assert_eq!(r.receive_rtp(&other, 0, None, 0), vec![RecvAction::Ignore]);
    other.sequence_number = 2;
    assert_eq!(r.receive_rtp(&other, 0, None, 0), vec![queued(1, true, 0)]);
    assert_eq!(r.stream_key(0), Some((96, 1)));
    assert_eq!(r.stream_key(1), Some((97, 1)));
    assert_eq!(r.stream_key(2), None);
    assert_eq!(r.jitterbuffer_stats(2), None);
}

#[test]
fn first_due_stream_is_served_first() {
    let mut r = receiver_with_source(1);
    r.session_mut().handle_rtcp_recv(
        &vec![RtcpPacket::Rr { ssrc: 2, report_blocks: vec![] }],
        8,
        None,
        0,
        0,
    );
    r.receive_rtp(&packet(1, 1, 0), 0, None, 0);
    r.receive_rtp(&packet(2, 1, 0), 0, None, 50 * MS);
    r.set_active(0, true);
    r.set_active(1, true);
    assert_eq!(r.poll(200 * MS), StreamPoll::Forward { stream: 0, id: 0, discont: false });
    assert_eq!(r.poll(200 * MS), StreamPoll::Timeout(250 * MS));
    assert_eq!(r.poll(250 * MS), StreamPoll::Forward { stream: 1, id: 0, discont: false });
    assert_eq!(r.poll(250 * MS), StreamPoll::Pending);
}

#[test]
fn serialized_items_go_to_every_stream() {
    let mut r = receiver_with_source(1);
    assert!(r.queue_serialized_item().is_empty());
    r.session_mut().handle_rtcp_recv(
        &vec![RtcpPacket::Rr { ssrc: 2, report_blocks: vec![] }],
        8,
        None,
        0,
        0,
    );
    r.receive_rtp(&packet(1, 1, 0), 0, None, 0);
    r.receive_rtp(&packet(2, 1, 0), 0, None, 0);
    r.receive_rtp(&packet(2, 2, 160), 20 * MS, None, 20 * MS);
    assert_eq!(r.queue_serialized_item(), vec![(0, 1), (1, 2)]);
    r.set_active(0, true);
    r.set_active(1, true);
    assert_eq!(r.poll(300 * MS), StreamPoll::Forward { stream: 0, id: 0, discont: false });
    assert_eq!(r.poll(300 * MS), StreamPoll::Forward { stream: 0, id: 1, discont: false });
    assert_eq!(r.poll(300 * MS), StreamPoll::Forward { stream: 1, id: 0, discont: false });
}

#[test]
fn clearing_forgets_streams_and_held_packets() {
    let mut r = Receiver::new(Session::with_cname("alice"), 100 * MS);
    r.receive_rtp(&packet(1, 10, 0), 0, None, 0);
    r.receive_rtp(&packet(1, 11, 0), 0, None, 0);
    r.receive_rtp(&packet(2, 10, 0), 0, None, 0);
    assert_eq!(r.stream_count(), 1);
    assert_eq!(r.held_packets(), 1);
    r.clear();
    assert_eq!(r.stream_count(), 0);
    assert_eq!(r.held_packets(), 0);
    assert_eq!(r.poll(u64::MAX), StreamPoll::Pending);
    // The session holds no packet either: the source becomes valid with the
    // next packet in sequence, and nothing is forwarded with it.
    assert!(r.session().held().is_empty());
    assert_eq!(r.receive_rtp(&packet(2, 11, 0), 0, None, 0), vec![queued(0, true, 0)]);
}

#[test]
fn serialized_item_for_one_stream() {
    let mut r = receiver_with_source(1);
    assert_eq!(r.queue_serialized_item_in(0), None);
    r.receive_rtp(&packet(1, 1, 0), 0, None, 0);
    assert_eq!(r.queue_serialized_item_in(0), Some(1));
    assert_eq!(r.queue_serialized_item_in(0), Some(2));
    assert_eq!(r.queue_serialized_item_in(1), None);
    assert_eq!(r.jitterbuffer_stats(0).unwrap().size, 3);
}

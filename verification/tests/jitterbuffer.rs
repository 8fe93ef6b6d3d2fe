use rtpbin2::jitterbuffer::{JitterBuffer, PollResult, QueueResult, StreamState};
use rtpbin2::packet::RtpPacket;

const MS: u64 = 1_000_000;

fn packet(seq: u16) -> RtpPacket {
    RtpPacket {
        payload_type: 96,
        sequence_number: seq,
        timestamp: 0,
        ssrc: 0x1234_5678,
        payload_len: 160,
    }
}

#[test]
fn empty_buffer_polls_empty() {
    let mut jb = JitterBuffer::new(200 * MS);
    assert_eq!(jb.get_latency(), 200 * MS);
    assert_eq!(jb.state(), StreamState::Idle);
    assert_eq!(jb.poll(0), PollResult::Empty);
    assert_eq!(jb.poll(u64::MAX), PollResult::Empty);
    assert_eq!(jb.stats().size, 0);
}

#[test]
fn reordered_packets_leave_in_order() {
    let mut jb = JitterBuffer::new(200 * MS);
    assert_eq!(jb.queue_packet(&packet(1), 0, 0), QueueResult::Queued(0));
    assert_eq!(jb.state(), StreamState::Buffering);
    assert_eq!(jb.queue_packet(&packet(3), 40 * MS, 40 * MS), QueueResult::Queued(1));
    assert_eq!(jb.queue_packet(&packet(2), 20 * MS, 45 * MS), QueueResult::Queued(2));
    assert_eq!(jb.stats().size, 3);

    assert_eq!(jb.poll(100 * MS), PollResult::Timeout(200 * MS));
    assert_eq!(jb.poll(200 * MS), PollResult::Forward { id: 0, discont: false });
    assert_eq!(jb.state(), StreamState::Steady);
    assert_eq!(jb.poll(200 * MS), PollResult::Timeout(220 * MS));
    assert_eq!(jb.poll(220 * MS), PollResult::Forward { id: 2, discont: false });
    assert_eq!(jb.poll(239 * MS), PollResult::Timeout(240 * MS));
    assert_eq!(jb.poll(240 * MS), PollResult::Forward { id: 1, discont: false });
    assert_eq!(jb.poll(240 * MS), PollResult::Empty);
    let stats = jb.stats();
    assert_eq!(stats.num_pushed, 3);
    assert_eq!(stats.num_discont, 0);
    assert_eq!(stats.num_late, 0);
    assert_eq!(stats.num_duplicates, 0);
}

#[test]
fn duplicate_of_queued_packet_is_dropped() {
    let mut jb = JitterBuffer::new(100 * MS);
    assert_eq!(jb.queue_packet(&packet(7), 0, 0), QueueResult::Queued(0));
    assert_eq!(jb.queue_packet(&packet(7), 0, 1 * MS), QueueResult::Duplicate);
    assert_eq!(jb.stats().size, 1);
    assert_eq!(jb.stats().num_duplicates, 1);
}

#[test]
fn duplicate_of_forwarded_packet_is_dropped() {
    let mut jb = JitterBuffer::new(100 * MS);
    assert_eq!(jb.queue_packet(&packet(5), 0, 0), QueueResult::Queued(0));
    assert_eq!(jb.poll(100 * MS), PollResult::Forward { id: 0, discont: false });
    assert_eq!(jb.stats().num_pushed, 1);
    assert_eq!(jb.queue_packet(&packet(5), 0, 101 * MS), QueueResult::Duplicate);
    assert_eq!(jb.poll(300 * MS), PollResult::Empty);
    let stats = jb.stats();
    assert_eq!(stats.num_pushed, 1);
    assert_eq!(stats.num_duplicates, 1);
    assert_eq!(stats.size, 0);
}

#[test]
fn packet_before_release_point_is_late() {
    let mut jb = JitterBuffer::new(100 * MS);
    assert_eq!(jb.queue_packet(&packet(10), 50 * MS, 0), QueueResult::Queued(0));
    assert_eq!(jb.queue_packet(&packet(11), 70 * MS, 20 * MS), QueueResult::Queued(1));
    assert_eq!(jb.poll(100 * MS), PollResult::Forward { id: 0, discont: false });
    assert_eq!(jb.poll(120 * MS), PollResult::Forward { id: 1, discont: false });
    // Due at 0 + 0 + 100 ms, before the release point of 120 ms.
    assert_eq!(jb.queue_packet(&packet(9), 30 * MS, 121 * MS), QueueResult::Late);
    assert_eq!(jb.stats().num_late, 1);
    assert_eq!(jb.stats().dropped(), 1);
    assert_eq!(jb.stats().size, 0);
    // Due exactly at the release point: still accepted.
    assert_eq!(jb.queue_packet(&packet(12), 70 * MS, 121 * MS), QueueResult::Queued(2));
}

#[test]
fn gap_in_sequence_numbers_marks_discont() {
    let mut jb = JitterBuffer::new(10 * MS);
    assert_eq!(jb.queue_packet(&packet(1), 0, 0), QueueResult::Queued(0));
    assert_eq!(jb.queue_packet(&packet(3), 20 * MS, 20 * MS), QueueResult::Queued(1));
    assert_eq!(jb.poll(10 * MS), PollResult::Forward { id: 0, discont: false });
    assert_eq!(jb.poll(30 * MS), PollResult::Forward { id: 1, discont: true });
    assert_eq!(jb.stats().num_discont, 1);
}

#[test]
fn sequence_number_rollover_is_contiguous() {
    let mut jb = JitterBuffer::new(10 * MS);
    assert_eq!(jb.queue_packet(&packet(65535), 0, 0), QueueResult::Queued(0));
    assert_eq!(jb.queue_packet(&packet(0), 20 * MS, 20 * MS), QueueResult::Queued(1));
    assert_eq!(jb.poll(10 * MS), PollResult::Forward { id: 0, discont: false });
    assert_eq!(jb.poll(30 * MS), PollResult::Forward { id: 1, discont: false });
    // The same 16-bit number one cycle later is a new packet.
    assert_eq!(jb.queue_packet(&packet(32000), 40 * MS, 40 * MS), QueueResult::Queued(2));
    assert_eq!(jb.queue_packet(&packet(64000), 60 * MS, 60 * MS), QueueResult::Queued(3));
    assert_eq!(jb.queue_packet(&packet(65535), 80 * MS, 80 * MS), QueueResult::Queued(4));
}

#[test]
fn release_time_is_capped_by_latency_after_arrival() {
    let mut jb = JitterBuffer::new(100 * MS);
    assert_eq!(jb.queue_packet(&packet(1), 0, 0), QueueResult::Queued(0));
    // One second ahead in presentation time, but it arrived at 10 ms: it is
    // held for the latency and no longer.
    assert_eq!(jb.queue_packet(&packet(2), 1000 * MS, 10 * MS), QueueResult::Queued(1));
    assert_eq!(jb.poll(100 * MS), PollResult::Forward { id: 0, discont: false });
    assert_eq!(jb.poll(100 * MS), PollResult::Timeout(110 * MS));
    assert_eq!(jb.poll(110 * MS), PollResult::Forward { id: 1, discont: false });
}

#[test]
fn serialized_item_keeps_its_place() {
    let mut jb = JitterBuffer::new(100 * MS);
    assert_eq!(jb.queue_packet(&packet(1), 0, 0), QueueResult::Queued(0));
    assert_eq!(jb.queue_packet(&packet(3), 40 * MS, 40 * MS), QueueResult::Queued(1));
    assert_eq!(jb.queue_serialized_item(), QueueResult::Queued(2));
    // Due at 120 ms by its timestamp, but queued behind the item: it waits
    // for the item, which waits for packet 3.
    assert_eq!(jb.queue_packet(&packet(2), 20 * MS, 41 * MS), QueueResult::Queued(3));
    assert_eq!(jb.queue_packet(&packet(4), 60 * MS, 60 * MS), QueueResult::Queued(4));
    assert_eq!(jb.poll(100 * MS), PollResult::Forward { id: 0, discont: false });
    assert_eq!(jb.poll(130 * MS), PollResult::Timeout(140 * MS));
    assert_eq!(jb.poll(200 * MS), PollResult::Forward { id: 1, discont: true });
    assert_eq!(jb.poll(200 * MS), PollResult::Forward { id: 2, discont: false });
    assert_eq!(jb.poll(200 * MS), PollResult::Forward { id: 3, discont: true });
    assert_eq!(jb.poll(200 * MS), PollResult::Forward { id: 4, discont: true });
    assert_eq!(jb.poll(200 * MS), PollResult::Empty);
}

#[test]
fn serialized_item_in_empty_buffer_leaves_at_once() {
    let mut jb = JitterBuffer::new(100 * MS);
    assert_eq!(jb.queue_serialized_item(), QueueResult::Queued(0));
    assert_eq!(jb.poll(0), PollResult::Forward { id: 0, discont: false });
    assert_eq!(jb.poll(0), PollResult::Empty);
}

#[test]
fn jitter_moves_a_sixteenth_towards_the_difference() {
    let mut jb = JitterBuffer::new(100 * MS);
    assert_eq!(jb.queue_packet(&packet(1), 0, 0), QueueResult::Queued(0));
    assert_eq!(jb.stats().jitter, 0);
    // Arrival spacing 36 ms, timestamp spacing 20 ms: difference 16 ms.
    assert_eq!(jb.queue_packet(&packet(2), 20 * MS, 36 * MS), QueueResult::Queued(1));
    assert_eq!(jb.stats().jitter, MS);
    // Spacing equal: difference 0, the estimate decays by a sixteenth.
    assert_eq!(jb.queue_packet(&packet(3), 40 * MS, 56 * MS), QueueResult::Queued(2));
    assert_eq!(jb.stats().jitter, MS - MS / 16);
}

#[test]
fn flush_returns_to_idle_and_keeps_history() {
    let mut jb = JitterBuffer::new(100 * MS);
    assert_eq!(jb.queue_packet(&packet(1), 0, 0), QueueResult::Queued(0));
    assert_eq!(jb.queue_packet(&packet(2), 20 * MS, 20 * MS), QueueResult::Queued(1));
    assert_eq!(jb.poll(100 * MS), PollResult::Forward { id: 0, discont: false });
    jb.flush();
    assert_eq!(jb.state(), StreamState::Idle);
    assert_eq!(jb.poll(500 * MS), PollResult::Empty);
    assert_eq!(jb.queue_packet(&packet(2), 20 * MS, 500 * MS), QueueResult::Duplicate);
    assert_eq!(jb.queue_packet(&packet(3), 40 * MS, 500 * MS), QueueResult::Queued(2));
}

#[test]
fn shutdown_closes_the_buffer() {
    let mut jb = JitterBuffer::new(100 * MS);
    assert!(jb.can_queue());
    assert_eq!(jb.queue_packet(&packet(1), 0, 0), QueueResult::Queued(0));
    jb.shutdown();
    assert!(jb.has_shut_down());
    assert!(!jb.can_queue());
    assert_eq!(jb.poll(100 * MS), PollResult::Forward { id: 0, discont: false });
}

#[test]
fn late_packet_is_dropped_while_an_item_waits() {
    let mut jb = JitterBuffer::new(200 * MS);
    assert_eq!(jb.queue_packet(&packet(1), 0, 0), QueueResult::Queued(0));
    assert_eq!(jb.queue_packet(&packet(2), 100 * MS, 100 * MS), QueueResult::Queued(1));
    assert_eq!(jb.queue_packet(&packet(3), 200 * MS, 200 * MS), QueueResult::Queued(2));
    assert_eq!(jb.poll(200 * MS), PollResult::Forward { id: 0, discont: false });
    assert_eq!(jb.poll(300 * MS), PollResult::Forward { id: 1, discont: false });
    assert_eq!(jb.queue_serialized_item(), QueueResult::Queued(3));
    // Due at 200 ms, before the release point of 300 ms: the item that
    // waits until 400 ms does not keep the packet.
    assert_eq!(jb.queue_packet(&packet(0), 0, 310 * MS), QueueResult::Late);
    assert_eq!(jb.stats().size, 2);
    assert_eq!(jb.stats().num_late, 1);
    // Due at 350 ms, behind the release point: queued behind the item.
    assert_eq!(jb.queue_packet(&packet(4), 150 * MS, 310 * MS), QueueResult::Queued(4));
    assert_eq!(jb.poll(400 * MS), PollResult::Forward { id: 2, discont: false });
    assert_eq!(jb.poll(400 * MS), PollResult::Forward { id: 3, discont: false });
    assert_eq!(jb.poll(400 * MS), PollResult::Forward { id: 4, discont: false });
    assert_eq!(jb.poll(400 * MS), PollResult::Empty);
}

#[test]
fn packets_of_a_burst_leave_as_they_came() {
    let mut jb = JitterBuffer::new(200 * MS);
    assert_eq!(jb.queue_packet(&packet(1), 0, 0), QueueResult::Queued(0));
    assert_eq!(jb.queue_packet(&packet(3), 40 * MS, 1 * MS), QueueResult::Queued(1));
    assert_eq!(jb.queue_packet(&packet(2), 20 * MS, 2 * MS), QueueResult::Queued(2));
    // Each is due one latency after its own arrival.
    assert_eq!(jb.poll(200 * MS), PollResult::Forward { id: 0, discont: false });
    assert_eq!(jb.poll(200 * MS), PollResult::Timeout(201 * MS));
    assert_eq!(jb.poll(201 * MS), PollResult::Forward { id: 1, discont: true });
    assert_eq!(jb.poll(202 * MS), PollResult::Forward { id: 2, discont: true });
}

#[test]
fn forwarded_ids_never_come_again() {
    let mut jb = JitterBuffer::new(10 * MS);
    let mut forwarded = Vec::new();
    for round in 0..20u64 {
        let now = round * 20 * MS;
        jb.queue_packet(&packet(round as u16), now, now);
        if round % 3 == 0 {
            jb.queue_serialized_item();
        }
        if round % 7 == 6 {
            jb.flush();
        }
        while let PollResult::Forward { id, .. } = jb.poll(now + 10 * MS) {
            assert!(!forwarded.contains(&id));
            forwarded.push(id);
        }
    }
    assert_eq!(forwarded.len(), 24);
}

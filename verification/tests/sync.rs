use rtpbin2::sync::{ntp_to_nanos_exec, Context, TimestampingMode};

const SECOND: u64 = 1_000_000_000;

fn ntp(seconds: u64) -> u64 {
    seconds << 32
}

#[test]
fn default_mode_is_ntp_aligned() {
    assert_eq!(TimestampingMode::default(), TimestampingMode::NtpAligned);
    let ctx = Context::new(TimestampingMode::RunningTime);
    assert_eq!(ctx.get_mode(), TimestampingMode::RunningTime);
}

#[test]
fn ntp_timestamp_in_nanoseconds() {
    assert_eq!(ntp_to_nanos_exec(0), 0);
    assert_eq!(ntp_to_nanos_exec(1 << 32), SECOND);
    assert_eq!(ntp_to_nanos_exec((1 << 32) + (1 << 31)), SECOND + SECOND / 2);
    assert_eq!(ntp_to_nanos_exec((3 << 32) + (1 << 30)), 3 * SECOND + SECOND / 4);
    assert_eq!(ntp_to_nanos_exec(u64::MAX), 4_294_967_295 * SECOND + 999_999_999);
}

#[test]
fn running_time_counts_from_the_first_packet() {
    let mut ctx = Context::new(TimestampingMode::NtpAligned);
    ctx.set_clock_rate(7, 8000);
    assert_eq!(ctx.calculate_pts(7, 1000, SECOND), (SECOND, None));
    assert_eq!(ctx.calculate_pts(7, 9000, 5 * SECOND), (2 * SECOND, None));
    assert_eq!(ctx.calculate_pts(7, 5000, 6 * SECOND), (SECOND + SECOND / 2, None));
    // One tick of 125 microseconds.
    assert_eq!(ctx.calculate_pts(7, 9001, 6 * SECOND), (2 * SECOND + 125_000, None));
    // Before the first packet: the distance counts backwards.
    assert_eq!(ctx.calculate_pts(7, 200, 6 * SECOND), (SECOND - 100_000_000, None));
}

#[test]
fn pts_before_time_zero_stops_at_zero() {
    let mut ctx = Context::new(TimestampingMode::NtpAligned);
    ctx.set_clock_rate(7, 8000);
    assert_eq!(ctx.calculate_pts(7, 16000, 1), (1, None));
    assert_eq!(ctx.calculate_pts(7, 0, 5), (0, None));
}

#[test]
fn without_clock_rate_the_pts_is_the_arrival_time() {
    let mut ctx = Context::new(TimestampingMode::NtpAligned);
    assert_eq!(ctx.calculate_pts(7, 1000, 10), (10, None));
    assert_eq!(ctx.calculate_pts(7, 90000, 25), (25, None));
    ctx.set_clock_rate(7, 0);
    assert_eq!(ctx.calculate_pts(7, 180000, 30), (30, None));
}

#[test]
fn pts_goes_on_across_timestamp_rollover() {
    let mut ctx = Context::new(TimestampingMode::NtpAligned);
    ctx.set_clock_rate(1, 8000);
    assert_eq!(ctx.calculate_pts(1, 0xffff_ff00, 0), (0, None));
    // 0x200 ticks later the raw timestamp has wrapped around.
    assert_eq!(ctx.calculate_pts(1, 0x0000_0100, 64_000_000), (64_000_000, None));
    assert_eq!(ctx.calculate_pts(1, 0x0000_0100 + 8000, 2 * SECOND), (SECOND + 64_000_000, None));
}

#[test]
fn streams_are_timed_apart() {
    let mut ctx = Context::new(TimestampingMode::RunningTime);
    ctx.set_clock_rate(1, 8000);
    ctx.set_clock_rate(2, 90000);
    assert_eq!(ctx.calculate_pts(1, 0, SECOND), (SECOND, None));
    assert_eq!(ctx.calculate_pts(2, 0, 3 * SECOND), (3 * SECOND, None));
    assert_eq!(ctx.calculate_pts(1, 8000, 9 * SECOND), (2 * SECOND, None));
    assert_eq!(ctx.calculate_pts(2, 45000, 9 * SECOND), (3 * SECOND + SECOND / 2, None));
}

#[test]
fn sender_report_switches_to_ntp_aligned() {
    let mut ctx = Context::new(TimestampingMode::NtpAligned);
    ctx.set_clock_rate(1, 8000);
    assert_eq!(ctx.mode_of(1), TimestampingMode::RunningTime);
    assert_eq!(ctx.calculate_pts(1, 0, SECOND), (SECOND, None));
    ctx.add_sender_report(1, 8000, ntp(100));
    ctx.associate(1, "alice@example.org");
    assert_eq!(ctx.mode_of(1), TimestampingMode::NtpAligned);
    // The packet was sent one second after the report: at 101 s. The offset
    // is fixed so that the presentation time goes on where it stood.
    assert_eq!(ctx.calculate_pts(1, 16000, 3 * SECOND), (3 * SECOND, Some(101 * SECOND)));
    assert_eq!(ctx.calculate_pts(1, 24000, 9 * SECOND), (4 * SECOND, Some(102 * SECOND)));
    // A later report says that the sender's clock is 10 ms ahead of what
    // the timestamps told: the presentation time follows.
    ctx.add_sender_report(1, 32000, ntp(103) + (1 << 32) / 100);
    let (pts, ntp_time) = ctx.calculate_pts(1, 32000, 9 * SECOND);
    assert_eq!(ntp_time, Some(103 * SECOND + 9_999_999));
    assert_eq!(pts, 5 * SECOND + 9_999_999);
}

#[test]
fn running_time_mode_ignores_sender_reports() {
    let mut ctx = Context::new(TimestampingMode::RunningTime);
    ctx.set_clock_rate(1, 8000);
    ctx.add_sender_report(1, 0, ntp(100));
    assert_eq!(ctx.mode_of(1), TimestampingMode::RunningTime);
    assert_eq!(ctx.calculate_pts(1, 0, SECOND), (SECOND, Some(100 * SECOND)));
    assert_eq!(ctx.calculate_pts(1, 8000, 7 * SECOND), (2 * SECOND, Some(101 * SECOND)));
}

#[test]
fn streams_with_one_cname_line_up() {
    let mut ctx = Context::new(TimestampingMode::NtpAligned);
    // Audio at 8 kHz and video at 90 kHz of one participant.
    ctx.set_clock_rate(1, 8000);
    ctx.set_clock_rate(2, 90000);
    ctx.associate(1, "alice@example.org");
    ctx.associate(2, "alice@example.org");
    ctx.add_sender_report(1, 0, ntp(100));
    ctx.add_sender_report(2, 1_000_000, ntp(100));
    // Audio sent at 101 s arrives at 5 s.
    assert_eq!(ctx.calculate_pts(1, 8000, 5 * SECOND), (5 * SECOND, Some(101 * SECOND)));
    // Video sent at 101 s arrives two seconds later: same presentation time.
    assert_eq!(ctx.calculate_pts(2, 1_090_000, 7 * SECOND), (5 * SECOND, Some(101 * SECOND)));
    // Video sent at 101.5 s.
    assert_eq!(
        ctx.calculate_pts(2, 1_135_000, 8 * SECOND),
        (5 * SECOND + SECOND / 2, Some(101 * SECOND + SECOND / 2))
    );
}

#[test]
fn streams_with_different_cnames_do_not_line_up() {
    let mut ctx = Context::new(TimestampingMode::NtpAligned);
    ctx.set_clock_rate(1, 8000);
    ctx.set_clock_rate(2, 8000);
    ctx.associate(1, "alice@example.org");
    ctx.associate(2, "bob@example.org");
    ctx.add_sender_report(1, 0, ntp(100));
    ctx.add_sender_report(2, 0, ntp(100));
    assert_eq!(ctx.calculate_pts(1, 8000, 5 * SECOND), (5 * SECOND, Some(101 * SECOND)));
    assert_eq!(ctx.calculate_pts(2, 8000, 7 * SECOND), (7 * SECOND, Some(101 * SECOND)));
}

#[test]
fn new_cname_takes_the_offset_of_the_new_group() {
    let mut ctx = Context::new(TimestampingMode::NtpAligned);
    ctx.set_clock_rate(1, 8000);
    ctx.set_clock_rate(2, 8000);
    ctx.associate(1, "alice@example.org");
    ctx.add_sender_report(1, 0, ntp(100));
    ctx.add_sender_report(2, 0, ntp(100));
    assert_eq!(ctx.calculate_pts(1, 8000, 5 * SECOND), (5 * SECOND, Some(101 * SECOND)));
    // Alone, stream 2 starts its own timeline.
    assert_eq!(ctx.calculate_pts(2, 8000, 9 * SECOND), (9 * SECOND, Some(101 * SECOND)));
    // Named like stream 1, it moves onto that stream's timeline.
    ctx.associate(2, "alice@example.org");
    assert_eq!(ctx.calculate_pts(2, 16000, 10 * SECOND), (6 * SECOND, Some(102 * SECOND)));
}

#[test]
fn steps_back_are_counted() {
    let mut ctx = Context::new(TimestampingMode::NtpAligned);
    ctx.set_clock_rate(7, 8000);
    assert_eq!(ctx.last_pts(7), None);
    ctx.calculate_pts(7, 8000, SECOND);
    ctx.calculate_pts(7, 16000, SECOND);
    assert_eq!(ctx.last_pts(7), Some(2 * SECOND));
    assert_eq!(ctx.discontinuities(7), 0);
    // A packet out of order is timed before the one before it.
    ctx.calculate_pts(7, 12000, SECOND);
    assert_eq!(ctx.last_pts(7), Some(SECOND + SECOND / 2));
    assert_eq!(ctx.discontinuities(7), 1);
    ctx.calculate_pts(7, 20000, SECOND);
    assert_eq!(ctx.discontinuities(7), 1);
    assert_eq!(ctx.discontinuities(8), 0);
}

#[test]
fn joining_a_group_can_step_back() {
    let mut ctx = Context::new(TimestampingMode::NtpAligned);
    ctx.set_clock_rate(1, 8000);
    ctx.set_clock_rate(2, 8000);
    ctx.associate(1, "alice@example.org");
    ctx.add_sender_report(1, 0, ntp(100));
    ctx.add_sender_report(2, 0, ntp(100));
    ctx.calculate_pts(1, 8000, 5 * SECOND);
    ctx.calculate_pts(2, 8000, 9 * SECOND);
    ctx.associate(2, "alice@example.org");
    assert_eq!(ctx.calculate_pts(2, 16000, 10 * SECOND).0, 6 * SECOND);
    assert_eq!(ctx.discontinuities(2), 1);
    assert_eq!(ctx.discontinuities(1), 0);
}

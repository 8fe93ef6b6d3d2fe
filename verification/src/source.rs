//! One synchronisation source of a session: what is known of it, how a
//! packet changes that, and what is reported of it.

use vstd::prelude::*;
use crate::packet::{Address, ReportBlock, RtpPacket, SenderInfo};
use crate::rtcp::MAX_CUMULATIVE_LOST;
use crate::seqnum::{extended, nearest_seqnum, nearest_timestamp, SEQ_MOD, TS_MOD};
use crate::sync::NANOS;

verus! {

/// Packets in sequence that make a new source valid.
pub const MIN_SEQUENTIAL: u8 = 2;

/// Largest step forward in sequence numbers that is taken for loss.
pub const MAX_DROPOUT: u64 = 3000;

/// Largest step backward in sequence numbers that is taken for reordering.
pub const MAX_MISORDER: u64 = 100;

/// Where a source stands in its life.
#[derive(Debug, Clone, Copy, PartialEq, Eq, Structural)]
pub enum SourceState {
    /// Seen, but not yet valid.
    Initial,
    /// Valid and taking part.
    Active,
    /// Has left, or is about to.
    Bye,
}

/// What a packet from a remote source means for the packets of that source.
#[derive(Debug, Clone, Copy, PartialEq, Eq, Structural)]
pub enum Verdict {
    /// The source is not valid yet: the packet is held.
    Hold,
    /// The source is not valid and the run of sequence numbers broke: the
    /// packets held so far are dropped and this one is held.
    Restart,
    /// The source has become valid: the packets held are forwarded and
    /// this one passes.
    Validated,
    /// The packet passes.
    Pass,
    /// The packet is ignored.
    Ignore,
}

/// One source of a session.
#[derive(Debug, Clone, Copy, PartialEq, Eq)]
pub struct Source {
    pub ssrc: u32,
    /// Whether the source is one of this engine.
    pub local: bool,
    /// Whether the source has sent RTP.
    pub sender: bool,
    pub state: SourceState,
    pub payload_type: Option<u8>,
    /// RTP packets sent (local) or received (remote).
    pub packet_count: u64,
    /// Payload bytes sent (local) or received (remote).
    pub octet_count: u64,
    /// Instant of the first packet.
    pub first_activity: Option<u64>,
    /// Instant of the last packet.
    pub last_activity: Option<u64>,
    /// Packets in sequence still needed before the source is valid.
    pub probation: u8,
    /// Extended sequence number from which packets are expected.
    pub base_seq: u64,
    /// Highest extended sequence number received.
    pub max_seq: Option<u64>,
    /// The sequence number that confirms a jump: one after a packet that
    /// was ignored for being far off.
    pub bad_seq: Option<u16>,
    /// Packets received since `base_seq`.
    pub received: u64,
    /// Packets expected when the last report block was made.
    pub expected_prior: u64,
    /// Packets received when the last report block was made.
    pub received_prior: u64,
    /// Highest extended RTP timestamp received.
    pub max_timestamp: Option<u64>,
    /// Arrival in timestamp units and extended timestamp of the last packet.
    pub transit: Option<(u64, u64)>,
    /// Interarrival jitter in timestamp units, times 16.
    pub jitter: u64,
    /// Where RTP of the source comes from.
    pub rtp_from: Option<Address>,
    /// Where RTCP of the source comes from.
    pub rtcp_from: Option<Address>,
    /// The last sender report received from (remote) or sent for (local) the source.
    pub last_sr: Option<SenderInfo>,
    /// Instant of that report.
    pub last_sr_time: Option<u64>,
    /// The last report block sent about the source.
    pub last_rb: Option<ReportBlock>,
    /// RTP timestamp and instant of the last packet sent.
    pub last_rtp: Option<(u32, u64)>,
}

/// A source of which only the ssrc and the side are known.
pub open spec fn new_source(ssrc: u32, local: bool) -> Source {
    Source {
        ssrc,
        local,
        sender: false,
        state: SourceState::Initial,
        payload_type: None,
        packet_count: 0,
        octet_count: 0,
        first_activity: None,
        last_activity: None,
        probation: MIN_SEQUENTIAL,
        base_seq: SEQ_MOD,
        max_seq: None,
        bad_seq: None,
        received: 0,
        expected_prior: 0,
        received_prior: 0,
        max_timestamp: None,
        transit: None,
        jitter: 0,
        rtp_from: None,
        rtcp_from: None,
        last_sr: None,
        last_sr_time: None,
        last_rb: None,
        last_rtp: None,
    }
}

/// What holds of every source that the engine keeps: the extended counters
/// are ones that the extension can have produced.
pub open spec fn valid(s: Source) -> bool {
    &&& s.max_seq is Some ==> s.max_seq->0 >= SEQ_MOD / 2
    &&& s.max_timestamp is Some ==> s.max_timestamp->0 >= TS_MOD
}

/// A sum that stops at the largest value.
pub open spec fn sat_add(a: u64, b: int) -> u64 {
    if a + b > u64::MAX {
        u64::MAX
    } else if a + b < 0 {
        0
    } else {
        (a + b) as u64
    }
}

/// The extended sequence number of a packet for a source whose highest is `max`.
pub open spec fn ext_seq(max: Option<u64>, seq: u16) -> u64 {
    match max {
        Some(m) if m >= SEQ_MOD => extended(Some(m), seq as int, SEQ_MOD as int) as u64,
        _ => (SEQ_MOD + seq) as u64,
    }
}

/// The extended timestamp of a packet for a source whose highest is `max`.
pub open spec fn ext_timestamp(max: Option<u64>, timestamp: u32) -> u64 {
    match max {
        Some(m) if m >= TS_MOD => extended(Some(m), timestamp as int, TS_MOD as int) as u64,
        _ => (TS_MOD + timestamp) as u64,
    }
}

/// An instant in nanoseconds in units of the RTP clock, rounded down.
pub open spec fn nanos_to_ticks(nanos: u64, rate: u32) -> u64 {
    let t = (nanos * rate) / (NANOS as int);
    if t > u64::MAX { u64::MAX } else { t as u64 }
}

/// The interarrival jitter (times 16) after a packet: the difference `d`
/// between the spacing of arrivals and the spacing of timestamps comes in
/// with a weight of one sixteenth.
pub open spec fn jitter_step(jitter: u64, last: Option<(u64, u64)>, arrival: u64, ext: u64) -> u64 {
    match last {
        None => jitter,
        Some((last_arrival, last_ext)) => {
            let d: int = (arrival - last_arrival) - (ext - last_ext);
            let d: int = if d < 0 { -d } else { d };
            sat_add(jitter, d - (jitter + 8) / 16)
        },
    }
}

/// The source after one more of its packets was counted.
pub open spec fn counted(s: Source, p: RtpPacket, now: u64, rate: Option<u32>) -> Source {
    let ext = ext_timestamp(s.max_timestamp, p.timestamp);
    let timed = match rate {
        Some(r) if r > 0 => Source {
            transit: Some((nanos_to_ticks(now, r), ext)),
            jitter: jitter_step(s.jitter, s.transit, nanos_to_ticks(now, r), ext),
            ..s
        },
        _ => Source { transit: None, ..s },
    };
    Source {
        sender: true,
        payload_type: Some(p.payload_type),
        packet_count: sat_add(s.packet_count, 1),
        octet_count: sat_add(s.octet_count, p.payload_len as int),
        received: sat_add(s.received, 1),
        first_activity: match s.first_activity {
            Some(t) => Some(t),
            None => Some(now),
        },
        last_activity: Some(now),
        max_timestamp: Some(
            match s.max_timestamp {
                Some(m) if m >= ext => m,
                _ => ext,
            },
        ),
        ..timed
    }
}

/// The source with its counts of received packets set back to none.
pub open spec fn recounted(s: Source) -> Source {
    Source {
        packet_count: 0,
        octet_count: 0,
        received: 0,
        expected_prior: 0,
        received_prior: 0,
        first_activity: None,
        transit: None,
        jitter: 0,
        ..s
    }
}

/// What a packet does to a remote source, and what it means for the
/// packets of the source.
///
/// A source that is not yet valid becomes valid with the packet that
/// completes a run of `MIN_SEQUENTIAL` packets in sequence; a packet out of
/// sequence starts the run again. Of a valid source, a packet with the
/// highest sequence number once more is ignored as a duplicate, one that is
/// up to `MAX_DROPOUT` ahead or `MAX_MISORDER` behind is counted, and one
/// that is farther off is ignored unless it follows directly on another
/// such packet, in which case the source is taken to have started again
/// from there. A source that has left is ignored.
pub open spec fn receive_step(s: Source, p: RtpPacket, now: u64, rate: Option<u32>) -> (
    Source,
    Verdict,
) {
    let first = (SEQ_MOD + p.sequence_number) as u64;
    let ext = ext_seq(s.max_seq, p.sequence_number);
    match s.state {
        SourceState::Bye => (s, Verdict::Ignore),
        SourceState::Initial => match s.max_seq {
            Some(m) if ext == m + 1 => {
                let t = Source { max_seq: Some(ext), ..counted(s, p, now, rate) };
                if s.probation <= 1 {
                    (Source { state: SourceState::Active, probation: 0, ..t }, Verdict::Validated)
                } else {
                    (Source { probation: (s.probation - 1) as u8, ..t }, Verdict::Hold)
                }
            },
            Some(_) => (
                Source {
                    max_seq: Some(first),
                    base_seq: first,
                    probation: (MIN_SEQUENTIAL - 1) as u8,
                    ..counted(recounted(s), p, now, rate)
                },
                Verdict::Restart,
            ),
            None => (
                Source {
                    max_seq: Some(first),
                    base_seq: first,
                    probation: (MIN_SEQUENTIAL - 1) as u8,
                    ..counted(recounted(s), p, now, rate)
                },
                Verdict::Hold,
            ),
        },
        SourceState::Active => match s.max_seq {
            None => (
                Source { max_seq: Some(first), base_seq: first, ..counted(s, p, now, rate) },
                Verdict::Pass,
            ),
            Some(m) => {
                if ext == m {
                    (s, Verdict::Ignore)
                } else if m < ext && ext - m < MAX_DROPOUT {
                    (
                        Source { max_seq: Some(ext), bad_seq: None, ..counted(s, p, now, rate) },
                        Verdict::Pass,
                    )
                } else if ext < m && m - ext <= MAX_MISORDER {
                    (counted(s, p, now, rate), Verdict::Pass)
                } else if s.bad_seq == Some(p.sequence_number) {
                    (
                        Source {
                            max_seq: Some(first),
                            base_seq: first,
                            bad_seq: None,
                            ..counted(recounted(s), p, now, rate)
                        },
                        Verdict::Pass,
                    )
                } else {
                    (
                        Source {
                            bad_seq: Some(((p.sequence_number + 1) % (SEQ_MOD as int)) as u16),
                            ..s
                        },
                        Verdict::Ignore,
                    )
                }
            },
        },
    }
}

/// A packet leaves a source what it was for the table: it keeps its ssrc,
/// and its extended counters stay ones that the extension can have
/// produced.
pub proof fn lemma_receive_step_valid(s: Source, p: RtpPacket, now: u64, rate: Option<u32>)
    requires
        valid(s),
    ensures
        valid(receive_step(s, p, now, rate).0),
        receive_step(s, p, now, rate).0.ssrc == s.ssrc,
{
    if s.max_seq is Some && s.max_seq->0 >= SEQ_MOD {
        crate::seqnum::lemma_nearest_congruent(
            s.max_seq->0 as int,
            p.sequence_number as int,
            SEQ_MOD as int,
        );
    }
    if s.max_timestamp is Some {
        crate::seqnum::lemma_nearest_congruent(
            s.max_timestamp->0 as int,
            p.timestamp as int,
            TS_MOD as int,
        );
    }
    let r = recounted(s);
    assert(valid(counted(s, p, now, rate)));
    assert(valid(counted(r, p, now, rate)));
}

/// What a packet that this engine sends does to its source.
pub open spec fn send_step(s: Source, p: RtpPacket, now: u64) -> Source {
    Source {
        sender: true,
        state: if s.state == SourceState::Initial {
            SourceState::Active
        } else {
            s.state
        },
        payload_type: Some(p.payload_type),
        packet_count: sat_add(s.packet_count, 1),
        octet_count: sat_add(s.octet_count, p.payload_len as int),
        first_activity: match s.first_activity {
            Some(t) => Some(t),
            None => Some(now),
        },
        last_activity: Some(now),
        last_rtp: Some((p.timestamp, now)),
        ..s
    }
}

/// Packets expected of a source: from `base_seq` up to the highest received.
pub open spec fn expected(s: Source) -> u64 {
    match s.max_seq {
        Some(m) if m >= s.base_seq => sat_add((m - s.base_seq) as u64, 1),
        _ => 0,
    }
}

/// Packets of a source that were expected and did not come.
pub open spec fn packets_lost(s: Source) -> u64 {
    if expected(s) > s.received {
        (expected(s) - s.received) as u64
    } else {
        0
    }
}

/// The share of packets lost since the last report block, in 256ths.
pub open spec fn fraction_lost(s: Source) -> u8 {
    let expected_interval: int = expected(s) - s.expected_prior;
    let received_interval: int = s.received - s.received_prior;
    let lost_interval: int = expected_interval - received_interval;
    if expected_interval <= 0 || lost_interval <= 0 {
        0
    } else if (lost_interval * 256) / expected_interval > 255 {
        255
    } else {
        ((lost_interval * 256) / expected_interval) as u8
    }
}

/// A span of nanoseconds in units of 1/65536 s, no more than 32 bits.
pub open spec fn nanos_to_short_ntp(nanos: u64) -> u32 {
    let t = (nanos * 65536) / (NANOS as int);
    if t > u32::MAX { u32::MAX } else { t as u32 }
}

/// The report block that tells of a source at the instant `now`.
pub open spec fn report_block_of(s: Source, now: u64) -> ReportBlock {
    ReportBlock {
        ssrc: s.ssrc,
        fraction_lost: fraction_lost(s),
        cumulative_lost: if packets_lost(s) > MAX_CUMULATIVE_LOST {
            MAX_CUMULATIVE_LOST
        } else {
            packets_lost(s) as u32
        },
        extended_sequence_number: match s.max_seq {
            Some(m) if m >= SEQ_MOD => ((m - SEQ_MOD) % (TS_MOD as int)) as u32,
            _ => 0,
        },
        jitter: if s.jitter / 16 > u32::MAX { u32::MAX } else { (s.jitter / 16) as u32 },
        last_sr_ntp_time: match s.last_sr {
            Some(sr) => ((sr.ntp_timestamp / 0x1_0000) % 0x1_0000_0000) as u32,
            None => 0,
        },
        delay_since_last_sr: match (s.last_sr, s.last_sr_time) {
            (Some(_), Some(t)) if now >= t => nanos_to_short_ntp((now - t) as u64),
            _ => 0,
        },
    }
}

/// The source after a report block told of it.
pub open spec fn reported(s: Source, now: u64) -> Source {
    Source {
        expected_prior: expected(s),
        received_prior: s.received,
        last_rb: Some(report_block_of(s, now)),
        ..s
    }
}

/// The sender information that a local sender reports at `now`: the RTP
/// timestamp goes on from that of the last packet at the clock rate.
pub open spec fn sender_info_of(s: Source, now: u64, ntp_now: u64, rate: Option<u32>) -> SenderInfo {
    SenderInfo {
        ntp_timestamp: ntp_now,
        rtp_timestamp: match s.last_rtp {
            Some((ts, t)) => match rate {
                Some(r) if r > 0 && now >= t => ((ts + nanos_to_ticks((now - t) as u64, r)) % (
                TS_MOD as int)) as u32,
                _ => ts,
            },
            None => 0,
        },
        packet_count: (s.packet_count % TS_MOD) as u32,
        octet_count: (s.octet_count % TS_MOD) as u32,
    }
}

/// The average bitrate of a source between its first and its last packet,
/// in bits per second.
pub open spec fn bitrate_of(s: Source) -> u64 {
    match (s.first_activity, s.last_activity) {
        (Some(a), Some(b)) if b > a => {
            let r = (s.octet_count * 8 * NANOS) / (b - a);
            if r > u64::MAX { u64::MAX } else { r as u64 }
        },
        _ => 0,
    }
}

/// Computes `sat_add` for an addend that is not negative.
fn add_sat(a: u64, b: u64) -> (r: u64)
    ensures
        r == sat_add(a, b as int),
{
    if b > u64::MAX - a {
        u64::MAX
    } else {
        a + b
    }
}

/// Computes `nanos_to_ticks`.
fn ticks_of(nanos: u64, rate: u32) -> (r: u64)
    ensures
        r == nanos_to_ticks(nanos, rate),
{
    assert(nanos * rate <= 0xffff_ffff_ffff_ffff * 0xffff_ffff) by (nonlinear_arith)
        requires
            0 <= nanos <= 0xffff_ffff_ffff_ffff,
            0 <= rate <= 0xffff_ffff,
    ;
    let t: u128 = (nanos as u128 * rate as u128) / 1_000_000_000;
    if t > u64::MAX as u128 {
        u64::MAX
    } else {
        t as u64
    }
}

/// Computes `jitter_step`.
fn next_jitter(jitter: u64, last: Option<(u64, u64)>, arrival: u64, ext: u64) -> (r: u64)
    ensures
        r == jitter_step(jitter, last, arrival, ext),
{
    match last {
        None => jitter,
        Some((last_arrival, last_ext)) => {
            let d: i128 = (arrival as i128 - last_arrival as i128) - (ext as i128 - last_ext as i128);
            let d: i128 = if d < 0 { -d } else { d };
            let j: i128 = jitter as i128 + d - (jitter as i128 + 8) / 16;
            if j > u64::MAX as i128 {
                u64::MAX
            } else if j < 0 {
                0
            } else {
                j as u64
            }
        },
    }
}

/// Computes `ext_seq`.
fn ext_seq_of(max: Option<u64>, seq: u16) -> (r: u64)
    ensures
        r == ext_seq(max, seq),
        r >= SEQ_MOD / 2,
{
    match max {
        Some(m) if m >= SEQ_MOD => nearest_seqnum(m, seq),
        _ => SEQ_MOD + seq as u64,
    }
}

/// Computes `ext_timestamp`.
fn ext_timestamp_of(max: Option<u64>, timestamp: u32) -> (r: u64)
    ensures
        r == ext_timestamp(max, timestamp),
        r >= TS_MOD / 2,
{
    match max {
        Some(m) if m >= TS_MOD => nearest_timestamp(m, timestamp),
        _ => TS_MOD + timestamp as u64,
    }
}

impl Source {
    /// A source of which only the ssrc and the side are known.
    pub fn new(ssrc: u32, local: bool) -> (r: Self)
        ensures
            r == new_source(ssrc, local),
            valid(r),
    {
        Source {
            ssrc,
            local,
            sender: false,
            state: SourceState::Initial,
            payload_type: None,
            packet_count: 0,
            octet_count: 0,
            first_activity: None,
            last_activity: None,
            probation: MIN_SEQUENTIAL,
            base_seq: SEQ_MOD,
            max_seq: None,
            bad_seq: None,
            received: 0,
            expected_prior: 0,
            received_prior: 0,
            max_timestamp: None,
            transit: None,
            jitter: 0,
            rtp_from: None,
            rtcp_from: None,
            last_sr: None,
            last_sr_time: None,
            last_rb: None,
            last_rtp: None,
        }
    }

    /// Counts one more packet of the source.
    fn count(&mut self, p: &RtpPacket, now: u64, rate: Option<u32>)
        ensures
            *final(self) == counted(*old(self), *p, now, rate),
    {
        let ext = ext_timestamp_of(self.max_timestamp, p.timestamp);
        match rate {
            Some(r) if r > 0 => {
                let arrival = ticks_of(now, r);
                self.jitter = next_jitter(self.jitter, self.transit, arrival, ext);
                self.transit = Some((arrival, ext));
            },
            _ => {
                self.transit = None;
            },
        }
        self.sender = true;
        self.payload_type = Some(p.payload_type);
        self.packet_count = add_sat(self.packet_count, 1);
        self.octet_count = add_sat(self.octet_count, p.payload_len as u64);
        self.received = add_sat(self.received, 1);
        if self.first_activity.is_none() {
            self.first_activity = Some(now);
        }
        self.last_activity = Some(now);
        self.max_timestamp = Some(
            match self.max_timestamp {
                Some(m) if m >= ext => m,
                _ => ext,
            },
        );
    }

    /// Sets the counts of received packets back to none.
    fn recount(&mut self)
        ensures
            *final(self) == recounted(*old(self)),
    {
        self.packet_count = 0;
        self.octet_count = 0;
        self.received = 0;
        self.expected_prior = 0;
        self.received_prior = 0;
        self.first_activity = None;
        self.transit = None;
        self.jitter = 0;
    }

    /// Takes in a packet that arrived from the source at `now`. `rate` is
    /// the clock rate of the packet's payload type, where it is known.
    pub fn receive(&mut self, p: &RtpPacket, now: u64, rate: Option<u32>) -> (r: Verdict)
        ensures
            (*final(self), r) == receive_step(*old(self), *p, now, rate),
            valid(*old(self)) ==> valid(*final(self)),
    {
        let first: u64 = SEQ_MOD + p.sequence_number as u64;
        let ext = ext_seq_of(self.max_seq, p.sequence_number);
        match self.state {
            SourceState::Bye => Verdict::Ignore,
            SourceState::Initial => match self.max_seq {
                Some(m) if m < u64::MAX && ext == m + 1 => {
                    let probation = self.probation;
                    self.count(p, now, rate);
                    self.max_seq = Some(ext);
                    if probation <= 1 {
                        self.state = SourceState::Active;
                        self.probation = 0;
                        Verdict::Validated
                    } else {
                        self.probation = probation - 1;
                        Verdict::Hold
                    }
                },
                Some(_) => {
                    self.recount();
                    self.count(p, now, rate);
                    self.max_seq = Some(first);
                    self.base_seq = first;
                    self.probation = MIN_SEQUENTIAL - 1;
                    Verdict::Restart
                },
                None => {
                    self.recount();
                    self.count(p, now, rate);
                    self.max_seq = Some(first);
                    self.base_seq = first;
                    self.probation = MIN_SEQUENTIAL - 1;
                    Verdict::Hold
                },
            },
            SourceState::Active => match self.max_seq {
                None => {
                    self.count(p, now, rate);
                    self.max_seq = Some(first);
                    self.base_seq = first;
                    Verdict::Pass
                },
                Some(m) => {
                    if ext == m {
                        Verdict::Ignore
                    } else if m < ext && ext - m < MAX_DROPOUT {
                        self.count(p, now, rate);
                        self.max_seq = Some(ext);
                        self.bad_seq = None;
                        Verdict::Pass
                    } else if ext < m && m - ext <= MAX_MISORDER {
                        self.count(p, now, rate);
                        Verdict::Pass
                    } else {
                        let confirmed = match self.bad_seq {
                            Some(b) => b == p.sequence_number,
                            None => false,
                        };
                        if confirmed {
                            self.recount();
                            self.count(p, now, rate);
                            self.max_seq = Some(first);
                            self.base_seq = first;
                            self.bad_seq = None;
                            Verdict::Pass
                        } else {
                            self.bad_seq = Some(
                                if p.sequence_number == u16::MAX {
                                    0
                                } else {
                                    p.sequence_number + 1
                                },
                            );
                            Verdict::Ignore
                        }
                    }
                },
            },
        }
    }

    /// Takes in a packet that this engine sends for the source at `now`.
    pub fn send(&mut self, p: &RtpPacket, now: u64)
        ensures
            *final(self) == send_step(*old(self), *p, now),
            valid(*old(self)) ==> valid(*final(self)),
    {
        self.sender = true;
        self.state = match self.state {
            SourceState::Initial => SourceState::Active,
            SourceState::Active => SourceState::Active,
            SourceState::Bye => SourceState::Bye,
        };
        self.payload_type = Some(p.payload_type);
        self.packet_count = add_sat(self.packet_count, 1);
        self.octet_count = add_sat(self.octet_count, p.payload_len as u64);
        if self.first_activity.is_none() {
            self.first_activity = Some(now);
        }
        self.last_activity = Some(now);
        self.last_rtp = Some((p.timestamp, now));
    }

    /// Packets expected of the source.
    pub fn expected(&self) -> (r: u64)
        ensures
            r == expected(*self),
    {
        match self.max_seq {
            Some(m) if m >= self.base_seq => add_sat(m - self.base_seq, 1),
            _ => 0,
        }
    }

    /// Packets of the source that were expected and did not come.
    pub fn packets_lost(&self) -> (r: u64)
        ensures
            r == packets_lost(*self),
    {
        let e = self.expected();
        if e > self.received {
            e - self.received
        } else {
            0
        }
    }

    /// The report block that tells of the source at `now`.
    pub fn report_block(&self, now: u64) -> (r: ReportBlock)
        ensures
            r == report_block_of(*self, now),
            r.cumulative_lost <= MAX_CUMULATIVE_LOST,
    {
        let e = self.expected();
        let expected_interval: i128 = e as i128 - self.expected_prior as i128;
        let received_interval: i128 = self.received as i128 - self.received_prior as i128;
        let lost_interval: i128 = expected_interval - received_interval;
        let fraction: u8 = if expected_interval <= 0 || lost_interval <= 0 {
            0
        } else {
            let f: i128 = (lost_interval * 256) / expected_interval;
            if f > 255 {
                255
            } else {
                f as u8
            }
        };
        let lost = self.packets_lost();
        let delay: u32 = match (self.last_sr, self.last_sr_time) {
            (Some(_), Some(t)) if now >= t => {
                let d: u128 = ((now - t) as u128 * 65536) / 1_000_000_000;
                if d > u32::MAX as u128 {
                    u32::MAX
                } else {
                    d as u32
                }
            },
            _ => 0,
        };
        ReportBlock {
            ssrc: self.ssrc,
            fraction_lost: fraction,
            cumulative_lost: if lost > MAX_CUMULATIVE_LOST as u64 {
                MAX_CUMULATIVE_LOST
            } else {
                lost as u32
            },
            extended_sequence_number: match self.max_seq {
                Some(m) if m >= SEQ_MOD => ((m - SEQ_MOD) % TS_MOD) as u32,
                _ => 0,
            },
            jitter: if self.jitter / 16 > u32::MAX as u64 {
                u32::MAX
            } else {
                (self.jitter / 16) as u32
            },
            last_sr_ntp_time: match self.last_sr {
                Some(sr) => ((sr.ntp_timestamp / 0x1_0000) % 0x1_0000_0000) as u32,
                None => 0,
            },
            delay_since_last_sr: delay,
        }
    }

    /// Makes the report block of the source and records that it was sent.
    pub fn report(&mut self, now: u64) -> (r: ReportBlock)
        ensures
            r == report_block_of(*old(self), now),
            r.cumulative_lost <= MAX_CUMULATIVE_LOST,
            *final(self) == reported(*old(self), now),
            valid(*old(self)) ==> valid(*final(self)),
    {
        let rb = self.report_block(now);
        self.expected_prior = self.expected();
        self.received_prior = self.received;
        self.last_rb = Some(rb);
        rb
    }

    /// The sender information that the source reports at `now`.
    pub fn sender_info(&self, now: u64, ntp_now: u64, rate: Option<u32>) -> (r: SenderInfo)
        ensures
            r == sender_info_of(*self, now, ntp_now, rate),
    {
        SenderInfo {
            ntp_timestamp: ntp_now,
            rtp_timestamp: match self.last_rtp {
                Some((ts, t)) => match rate {
                    Some(r) if r > 0 && now >= t => ((ts as u128 + ticks_of(now - t, r) as u128)
                        % 0x1_0000_0000) as u32,
                    _ => ts,
                },
                None => 0,
            },
            packet_count: (self.packet_count % TS_MOD) as u32,
            octet_count: (self.octet_count % TS_MOD) as u32,
        }
    }

    /// The average bitrate of the source in bits per second.
    pub fn bitrate(&self) -> (r: u64)
        ensures
            r == bitrate_of(*self),
    {
        match (self.first_activity, self.last_activity) {
            (Some(a), Some(b)) if b > a => {
                let r: u128 = (self.octet_count as u128 * 8 * 1_000_000_000) / ((b - a) as u128);
                if r > u64::MAX as u128 {
                    u64::MAX
                } else {
                    r as u64
                }
            },
            _ => 0,
        }
    }

    /// The ssrc of the source.
    pub fn ssrc(&self) -> (r: u32)
        ensures
            r == self.ssrc,
    {
        self.ssrc
    }

    /// Where the source stands in its life.
    pub fn state(&self) -> (r: SourceState)
        ensures
            r == self.state,
    {
        self.state
    }

    /// The payload type of the last packet.
    pub fn payload_type(&self) -> (r: Option<u8>)
        ensures
            r == self.payload_type,
    {
        self.payload_type
    }

    /// RTP packets sent or received.
    pub fn packet_count(&self) -> (r: u64)
        ensures
            r == self.packet_count,
    {
        self.packet_count
    }

    /// Payload bytes sent or received.
    pub fn octet_count(&self) -> (r: u64)
        ensures
            r == self.octet_count,
    {
        self.octet_count
    }

    /// The interarrival jitter in timestamp units.
    pub fn jitter(&self) -> (r: u32)
        ensures
            r == report_block_of(*self, 0).jitter,
    {
        if self.jitter / 16 > u32::MAX as u64 {
            u32::MAX
        } else {
            (self.jitter / 16) as u32
        }
    }

    /// Where RTP of the source comes from.
    pub fn rtp_from(&self) -> (r: Option<Address>)
        ensures
            r == self.rtp_from,
    {
        self.rtp_from
    }

    /// Where RTCP of the source comes from.
    pub fn rtcp_from(&self) -> (r: Option<Address>)
        ensures
            r == self.rtcp_from,
    {
        self.rtcp_from
    }

    /// The last sender report sent for a local source.
    pub fn last_sent_sr(&self) -> (r: Option<SenderInfo>)
        ensures
            r == (if self.local {
                self.last_sr
            } else {
                None
            }),
    {
        if self.local {
            self.last_sr
        } else {
            None
        }
    }

    /// The last sender report received from a remote source.
    pub fn last_received_sr(&self) -> (r: Option<SenderInfo>)
        ensures
            r == (if self.local {
                None
            } else {
                self.last_sr
            }),
    {
        if self.local {
            None
        } else {
            self.last_sr
        }
    }

    /// The last report block sent about the source.
    pub fn last_sent_rb(&self) -> (r: Option<ReportBlock>)
        ensures
            r == self.last_rb,
    {
        self.last_rb
    }

    /// Marks the source as leaving.
    pub fn mark_bye(&mut self)
        ensures
            *final(self) == (Source { state: SourceState::Bye, ..*old(self) }),
    {
        self.state = SourceState::Bye;
    }
}


} // verus!

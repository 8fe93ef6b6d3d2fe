//! Synchronisation of received streams: RTP timestamps are turned into
//! presentation times on one timeline, with the help of RTCP sender reports
//! and of the canonical names that tie streams of one participant together.

use vstd::prelude::*;
use vstd::arithmetic::div_mod::{
    lemma_div_is_ordered, lemma_fundamental_div_mod, lemma_fundamental_div_mod_converse,
    lemma_mod_bound,
};
use vstd::arithmetic::mul::lemma_mul_inequality;
use crate::seqnum::{extended, highest_after, ExtendedTimestamp, TS_MOD};

verus! {

/// Nanoseconds in a second.
pub const NANOS: u64 = 1_000_000_000;

/// How presentation times are chosen.
#[derive(Debug, Clone, Copy, PartialEq, Eq, Structural)]
pub enum TimestampingMode {
    /// From the stream's own RTP timestamps, counted from its first packet
    /// and laid onto the arrival clock.
    RunningTime,
    /// Through the last sender report, so that streams with one canonical
    /// name line up. Without a sender report this falls back to
    /// `RunningTime`.
    NtpAligned,
}

impl Default for TimestampingMode {
    fn default() -> (r: Self)
        ensures
            r == TimestampingMode::NtpAligned,
    {
        TimestampingMode::NtpAligned
    }
}

/// The nearest `u64` to an integer.
pub open spec fn clamp(x: int) -> u64 {
    if x < 0 {
        0
    } else if x > u64::MAX {
        u64::MAX
    } else {
        x as u64
    }
}

/// A span of RTP timestamp units in nanoseconds, rounded down.
pub open spec fn ticks_to_nanos(ticks: int, rate: u32) -> int {
    (ticks * NANOS) / (rate as int)
}

/// A 64-bit NTP timestamp (seconds in the upper half, fraction in the lower)
/// in nanoseconds.
pub open spec fn ntp_to_nanos(ntp: u64) -> u64 {
    ((ntp / 0x1_0000_0000) * NANOS + ((ntp % 0x1_0000_0000) * NANOS) / 0x1_0000_0000) as u64
}

/// The presentation time in running-time mode: the arrival time of the
/// first packet plus the distance in RTP time from it. Without a usable
/// clock rate it is the arrival time of the packet itself.
pub open spec fn running_pts(base: (u64, u64), rate: Option<u32>, ext: u64, arrival: u64) -> u64 {
    match rate {
        Some(r) if r > 0 => clamp(base.0 + ticks_to_nanos(ext - base.1, r)),
        _ => arrival,
    }
}

/// The sender's wall-clock time of a packet in nanoseconds, read off the
/// last sender report. `None` without a report or a usable clock rate.
pub open spec fn ntp_of(report: Option<(u64, u64)>, rate: Option<u32>, ext: u64) -> Option<u64> {
    match (report, rate) {
        (Some((report_ext, report_ntp)), Some(r)) if r > 0 => Some(
            clamp(report_ntp + ticks_to_nanos(ext - report_ext, r)),
        ),
        _ => None,
    }
}

/// The presentation time in NTP-aligned mode.
pub open spec fn aligned_pts(ntp: u64, offset: int) -> u64 {
    clamp(ntp + offset)
}

/// Computes `clamp`.
fn clamp_exec(x: i128) -> (r: u64)
    ensures
        r == clamp(x as int),
{
    if x < 0 {
        0
    } else if x > u64::MAX as i128 {
        u64::MAX
    } else {
        x as u64
    }
}

/// Computes `ticks_to_nanos`.
fn ticks_to_nanos_exec(ticks: i128, rate: u32) -> (r: i128)
    requires
        rate > 0,
        -0x1_0000_0000_0000_0000 < ticks < 0x1_0000_0000_0000_0000,
    ensures
        r == ticks_to_nanos(ticks as int, rate),
        -0x4000_0000_0000_0000_0000_0000 < r < 0x4000_0000_0000_0000_0000_0000,
{
    let d: i128 = rate as i128;
    if ticks >= 0 {
        let n: i128 = ticks * 1_000_000_000;
        assert(0 <= n / d <= n) by (nonlinear_arith)
            requires
                n >= 0,
                d >= 1,
        ;
        n / d
    } else {
        let m: i128 = (-ticks) * 1_000_000_000;
        let a: i128 = m / d;
        let b: i128 = m % d;
        assert(0 <= m / d <= m) by (nonlinear_arith)
            requires
                m >= 0,
                d >= 1,
        ;
        let q: i128 = if b == 0 { -a } else { -a - 1 };
        proof {
            let rem: int = if b == 0 { 0 } else { d - b };
            assert(m == a * d + b) by (nonlinear_arith)
                requires
                    a == m / d,
                    b == m % d,
                    d > 0,
            ;
            assert(ticks * NANOS == q * d + rem) by (nonlinear_arith)
                requires
                    m == -(ticks * 1_000_000_000),
                    m == a * d + b,
                    q == (if b == 0 { -a } else { -a - 1 }),
                    rem == (if b == 0 { 0 } else { d - b }),
                    NANOS == 1_000_000_000,
            ;
            lemma_fundamental_div_mod_converse(ticks * NANOS, d as int, q as int, rem);
        }
        q
    }
}

/// Computes `ntp_to_nanos`.
pub fn ntp_to_nanos_exec(ntp: u64) -> (r: u64)
    ensures
        r == ntp_to_nanos(ntp),
{
    let secs: u64 = ntp / 0x1_0000_0000;
    let frac: u64 = ntp % 0x1_0000_0000;
    secs * NANOS + (frac * NANOS) / 0x1_0000_0000
}

/// A later RTP timestamp never maps to an earlier span of nanoseconds.
pub proof fn lemma_ticks_monotonic(a: int, b: int, rate: u32)
    requires
        a <= b,
        rate > 0,
    ensures
        ticks_to_nanos(a, rate) <= ticks_to_nanos(b, rate),
{
    lemma_mul_inequality(a, b, NANOS as int);
    lemma_div_is_ordered(a * NANOS, b * NANOS, rate as int);
}

/// What the context knows of one stream.
pub struct Stream {
    ssrc: u32,
    clock_rate: Option<u32>,
    cname: Option<String>,
    timestamps: ExtendedTimestamp,
    base: Option<(u64, u64)>,
    sender_report: Option<(u64, u64)>,
    offset: Option<i128>,
    last_pts: Option<u64>,
    discontinuities: u64,
}

/// The state of one stream as contracts speak of it.
pub struct StreamView {
    pub ssrc: u32,
    /// RTP timestamp units per second.
    pub clock_rate: Option<u32>,
    /// The canonical name that groups the stream with others.
    pub cname: Option<Seq<char>>,
    /// The highest extended RTP timestamp seen.
    pub highest: Option<u64>,
    /// Arrival time and extended RTP timestamp of the first packet.
    pub base: Option<(u64, u64)>,
    /// Extended RTP timestamp and wall-clock nanoseconds of the last sender report.
    pub sender_report: Option<(u64, u64)>,
    /// What is added to a wall-clock time to get a presentation time.
    pub offset: Option<int>,
    /// The presentation time of the last packet.
    pub last_pts: Option<u64>,
    /// How often a presentation time lay before that of the packet before.
    pub discontinuities: u64,
}

impl View for Stream {
    type V = StreamView;

    closed spec fn view(&self) -> StreamView {
        StreamView {
            ssrc: self.ssrc,
            clock_rate: self.clock_rate,
            cname: match self.cname {
                Some(n) => Some(n@),
                None => None,
            },
            highest: self.timestamps.highest(),
            base: self.base,
            sender_report: self.sender_report,
            offset: match self.offset {
                Some(o) => Some(o as int),
                None => None,
            },
            last_pts: self.last_pts,
            discontinuities: self.discontinuities,
        }
    }
}

/// A stream of which nothing is known yet.
pub open spec fn fresh(ssrc: u32) -> StreamView {
    StreamView {
        ssrc,
        clock_rate: None,
        cname: None,
        highest: None,
        base: None,
        sender_report: None,
        offset: None,
        last_pts: None,
        discontinuities: 0,
    }
}

/// The state of `ssrc`, known or not.
pub open spec fn stream_or_fresh(streams: Map<u32, StreamView>, ssrc: u32) -> StreamView {
    if streams.dom().contains(ssrc) {
        streams[ssrc]
    } else {
        fresh(ssrc)
    }
}

/// Whether `ssrc` carries the name `cname` and has an offset.
pub open spec fn aligned_member(
    streams: Map<u32, StreamView>,
    cname: Option<Seq<char>>,
    ssrc: u32,
) -> bool {
    streams.dom().contains(ssrc) && cname is Some && streams[ssrc].cname == cname
        && streams[ssrc].offset is Some
}

/// The offset of the streams that carry the name `cname`, if one of them
/// has one. All of them have the same (`lemma_group_shares_offset`).
pub open spec fn group_offset(streams: Map<u32, StreamView>, cname: Option<Seq<char>>) -> Option<
    int,
> {
    if exists|s: u32| aligned_member(streams, cname, s) {
        streams[choose|s: u32| aligned_member(streams, cname, s)].offset
    } else {
        None
    }
}

/// The streams after the clock rate of `ssrc` was set.
pub open spec fn with_clock_rate(streams: Map<u32, StreamView>, ssrc: u32, rate: u32) -> Map<
    u32,
    StreamView,
> {
    streams.insert(ssrc, StreamView { clock_rate: Some(rate), ..stream_or_fresh(streams, ssrc) })
}

/// The streams after `ssrc` was tied to the canonical name `cname`: a
/// stream that changes its name gives up its offset.
pub open spec fn associated(streams: Map<u32, StreamView>, ssrc: u32, cname: Seq<char>) -> Map<
    u32,
    StreamView,
> {
    let s = stream_or_fresh(streams, ssrc);
    streams.insert(
        ssrc,
        StreamView {
            cname: Some(cname),
            offset: if s.cname == Some(cname) {
                s.offset
            } else {
                None
            },
            ..s
        },
    )
}

/// The streams after a sender report of `ssrc` was recorded.
pub open spec fn with_sender_report(streams: Map<u32, StreamView>, ssrc: u32, rtp: u32, ntp: u64) -> Map<
    u32,
    StreamView,
> {
    let s = stream_or_fresh(streams, ssrc);
    streams.insert(
        ssrc,
        StreamView {
            highest: Some(highest_after(s.highest, rtp as int, TS_MOD as int) as u64),
            sender_report: Some(
                (extended(s.highest, rtp as int, TS_MOD as int) as u64, ntp_to_nanos(ntp)),
            ),
            ..s
        },
    )
}

/// The result of one `calculate_pts`: presentation time, wall-clock time
/// of the sender if known, and the stream's state afterwards.
pub struct Step {
    pub pts: u64,
    pub ntp: Option<u64>,
    /// Whether the presentation time lies before that of the packet before.
    pub discont: bool,
    pub stream: StreamView,
}

/// Whether a presentation time lies before that of the packet before.
pub open spec fn goes_back(last: Option<u64>, pts: u64) -> bool {
    last is Some && pts < last->0
}

/// The stream after a packet got the presentation time `pts`: the time
/// is kept, and counted where it goes back.
pub open spec fn timed(s: StreamView, pts: u64) -> StreamView {
    StreamView {
        last_pts: Some(pts),
        discontinuities: if goes_back(s.last_pts, pts) && s.discontinuities < u64::MAX {
            (s.discontinuities + 1) as u64
        } else {
            s.discontinuities
        },
        ..s
    }
}

/// What `calculate_pts` computes for a packet of `ssrc` with the RTP
/// timestamp `rtp` that arrived at `arrival`.
pub open spec fn step(
    mode: TimestampingMode,
    streams: Map<u32, StreamView>,
    ssrc: u32,
    rtp: u32,
    arrival: u64,
) -> Step {
    let s = stream_or_fresh(streams, ssrc);
    let ext = extended(s.highest, rtp as int, TS_MOD as int) as u64;
    let base = match s.base {
        Some(b) => b,
        None => (arrival, ext),
    };
    let running = running_pts(base, s.clock_rate, ext, arrival);
    let ntp = ntp_of(s.sender_report, s.clock_rate, ext);
    let after = StreamView {
        highest: Some(highest_after(s.highest, rtp as int, TS_MOD as int) as u64),
        base: Some(base),
        ..s
    };
    if mode == TimestampingMode::NtpAligned && ntp is Some {
        let offset: int = if s.offset is Some {
            s.offset->0
        } else {
            match group_offset(streams, s.cname) {
                Some(o) => o,
                None => running - ntp->0,
            }
        };
        let pts = aligned_pts(ntp->0, offset);
        Step {
            pts,
            ntp,
            discont: goes_back(s.last_pts, pts),
            stream: timed(StreamView { offset: Some(offset), ..after }, pts),
        }
    } else {
        Step {
            pts: running,
            ntp,
            discont: goes_back(s.last_pts, running),
            stream: timed(after, running),
        }
    }
}

/// No two streams of the list have the same ssrc.
spec fn unique(v: Seq<Stream>) -> bool {
    forall|i: int, j: int| 0 <= i < j < v.len() ==> (#[trigger] v[i]).ssrc != (#[trigger] v[j]).ssrc
}

/// Streams with one name that have an offset have the same offset.
spec fn uniform(v: Seq<Stream>) -> bool {
    forall|i: int, j: int|
        0 <= i < v.len() && 0 <= j < v.len() && (#[trigger] v[i]).cname is Some && v[i]@.cname == (
        #[trigger] v[j])@.cname && v[i].offset is Some && v[j].offset is Some ==> v[i].offset
            == v[j].offset
}

/// Each stream alone is sound.
spec fn sound(v: Seq<Stream>) -> bool {
    forall|i: int|
        0 <= i < v.len() ==> {
            &&& (#[trigger] v[i]).timestamps.wf()
            &&& v[i].offset is Some ==> -0x1_0000_0000_0000_0000 < v[i].offset->0
                < 0x1_0000_0000_0000_0000
        }
}

/// Whether the stream at `i` is the one of `ssrc`.
spec fn at(v: Seq<Stream>, ssrc: u32, i: int) -> bool {
    0 <= i < v.len() && v[i].ssrc == ssrc
}

/// The list as a map from ssrc to state.
spec fn map_of(v: Seq<Stream>) -> Map<u32, StreamView> {
    Map::new(|ssrc: u32| exists|i: int| at(v, ssrc, i), |ssrc: u32| v[choose|i: int| at(v, ssrc, i)]@)
}

proof fn lemma_map_of(v: Seq<Stream>, i: int)
    requires
        unique(v),
        0 <= i < v.len(),
    ensures
        map_of(v).dom().contains(v[i].ssrc),
        map_of(v)[v[i].ssrc] == v[i]@,
{
    assert(at(v, v[i].ssrc, i));
    let c = choose|c: int| at(v, v[i].ssrc, c);
    assert(c == i) by {
        if c < i {
            assert(v[c].ssrc != v[i].ssrc);
        } else if i < c {
            assert(v[i].ssrc != v[c].ssrc);
        }
    }
}

#[verifier::rlimit(50)]
proof fn lemma_map_of_update(v: Seq<Stream>, i: int, s: Stream)
    requires
        unique(v),
        0 <= i < v.len(),
        s.ssrc == v[i].ssrc,
    ensures
        unique(v.update(i, s)),
        map_of(v.update(i, s)) == map_of(v).insert(s.ssrc, s@),
{
    let w = v.update(i, s);
    assert(unique(w));
    assert forall|k: u32| map_of(w).dom().contains(k) <==> map_of(v).insert(s.ssrc, s@).dom().contains(
        k,
    ) by {
        if map_of(w).dom().contains(k) {
            let c = choose|c: int| at(w, k, c);
            assert(at(v, k, c));
        }
        if map_of(v).dom().contains(k) {
            let c = choose|c: int| at(v, k, c);
            assert(at(w, k, c));
        }
        assert(at(w, s.ssrc, i));
    }
    assert forall|k: u32| #[trigger] map_of(w).dom().contains(k) implies map_of(w)[k] == map_of(
        v,
    ).insert(s.ssrc, s@)[k] by {
        let c = choose|c: int| at(w, k, c);
        lemma_map_of(w, c);
        if k != s.ssrc {
            lemma_map_of(v, c);
        }
    }
    assert(map_of(w) =~= map_of(v).insert(s.ssrc, s@));
}

#[verifier::rlimit(50)]
proof fn lemma_map_of_push(v: Seq<Stream>, s: Stream)
    requires
        unique(v),
        forall|i: int| 0 <= i < v.len() ==> (#[trigger] v[i]).ssrc != s.ssrc,
    ensures
        unique(v.push(s)),
        !map_of(v).dom().contains(s.ssrc),
        map_of(v.push(s)) == map_of(v).insert(s.ssrc, s@),
{
    let w = v.push(s);
    assert(unique(w));
    assert(!map_of(v).dom().contains(s.ssrc)) by {
        if map_of(v).dom().contains(s.ssrc) {
            let c = choose|c: int| at(v, s.ssrc, c);
            assert(v[c].ssrc != s.ssrc);
        }
    }
    assert forall|k: u32| map_of(w).dom().contains(k) <==> map_of(v).insert(s.ssrc, s@).dom().contains(
        k,
    ) by {
        if map_of(w).dom().contains(k) {
            let c = choose|c: int| at(w, k, c);
            if c < v.len() {
                assert(at(v, k, c));
            }
        }
        if map_of(v).dom().contains(k) {
            let c = choose|c: int| at(v, k, c);
            assert(at(w, k, c));
        }
        assert(at(w, s.ssrc, v.len() as int));
    }
    assert forall|k: u32| #[trigger] map_of(w).dom().contains(k) implies map_of(w)[k] == map_of(
        v,
    ).insert(s.ssrc, s@)[k] by {
        let c = choose|c: int| at(w, k, c);
        lemma_map_of(w, c);
        if k != s.ssrc {
            assert(c < v.len());
            lemma_map_of(v, c);
        }
    }
    assert(map_of(w) =~= map_of(v).insert(s.ssrc, s@));
}

/// Changing one stream keeps the list sound, as long as the stream keeps
/// its ssrc and an offset it gets is the one of its group.
#[verifier::rlimit(50)]
proof fn lemma_touch(v: Seq<Stream>, i: int, s: Stream)
    requires
        unique(v),
        uniform(v),
        sound(v),
        0 <= i < v.len(),
        s.ssrc == v[i].ssrc,
        s.timestamps.wf(),
        s.offset is Some ==> -0x1_0000_0000_0000_0000 < s.offset->0 < 0x1_0000_0000_0000_0000,
        forall|j: int|
            0 <= j < v.len() && j != i && s.cname is Some && s@.cname == (#[trigger] v[j])@.cname
                && s.offset is Some && v[j].offset is Some ==> s.offset == v[j].offset,
    ensures
        unique(v.update(i, s)),
        uniform(v.update(i, s)),
        sound(v.update(i, s)),
        map_of(v.update(i, s)) == map_of(v).insert(s.ssrc, s@),
{
    lemma_map_of_update(v, i, s);
    let w = v.update(i, s);
    assert forall|a: int, b: int|
        0 <= a < w.len() && 0 <= b < w.len() && (#[trigger] w[a]).cname is Some && w[a]@.cname == (
        #[trigger] w[b])@.cname && w[a].offset is Some && w[b].offset is Some implies w[a].offset
        == w[b].offset by {
        if a != i && b != i {
            assert(w[a] == v[a] && w[b] == v[b]);
        } else if a == i && b != i {
            assert(w[b] == v[b]);
        } else if b == i && a != i {
            assert(w[a] == v[a]);
        }
    }
}

/// What holds of every stream's state: its highest extended timestamp, if
/// any, is one that the extension of 32-bit timestamps can have produced.
pub open spec fn valid_stream(s: StreamView) -> bool {
    s.highest is Some ==> s.highest->0 >= TS_MOD
}

/// The mode in which a stream is timed.
pub open spec fn effective_mode(mode: TimestampingMode, s: StreamView) -> TimestampingMode {
    if mode == TimestampingMode::NtpAligned && s.sender_report is Some && s.clock_rate is Some
        && s.clock_rate->0 > 0 {
        TimestampingMode::NtpAligned
    } else {
        TimestampingMode::RunningTime
    }
}

/// The synchronisation context of one engine.
pub struct Context {
    mode: TimestampingMode,
    streams: Vec<Stream>,
}

impl Context {
    /// The configured mode.
    pub closed spec fn mode(&self) -> TimestampingMode {
        self.mode
    }

    /// The streams known, by ssrc.
    pub closed spec fn streams(&self) -> Map<u32, StreamView> {
        map_of(self.streams@)
    }

    /// The context's invariant.
    pub closed spec fn wf(&self) -> bool {
        &&& unique(self.streams@)
        &&& uniform(self.streams@)
        &&& sound(self.streams@)
    }

    /// A context without streams.
    pub fn new(mode: TimestampingMode) -> (r: Self)
        ensures
            r.wf(),
            r.mode() == mode,
            r.streams() == Map::<u32, StreamView>::empty(),
    {
        let r = Context { mode, streams: Vec::new() };
        proof {
            assert(r.streams() =~= Map::<u32, StreamView>::empty()) by {
                assert forall|k: u32| !map_of(r.streams@).dom().contains(k) by {
                    if map_of(r.streams@).dom().contains(k) {
                        let c = choose|c: int| at(r.streams@, k, c);
                    }
                }
            }
        }
        r
    }

    /// The configured mode.
    pub fn get_mode(&self) -> (r: TimestampingMode)
        ensures
            r == self.mode(),
    {
        self.mode
    }

    /// Records the clock rate of `ssrc`, in RTP timestamp units per second.
    pub fn set_clock_rate(&mut self, ssrc: u32, rate: u32)
        requires
            old(self).wf(),
        ensures
            final(self).wf(),
            final(self).mode() == old(self).mode(),
            final(self).streams() == with_clock_rate(old(self).streams(), ssrc, rate),
    {
        let i = self.entry(ssrc);
        let ghost before = self.streams@;
        self.streams[i].clock_rate = Some(rate);
        proof {
            assert(self.streams@ =~= before.update(i as int, self.streams@[i as int]));
            lemma_touch(before, i as int, self.streams@[i as int]);
            assert(self.streams() =~= old(self).streams().insert(ssrc, self.streams@[i as int]@));
        }
    }

    /// Ties `ssrc` to the canonical name `cname`. A stream that changes its
    /// name gives up its offset and takes that of its new group with its
    /// next packet.
    pub fn associate(&mut self, ssrc: u32, cname: &str)
        requires
            old(self).wf(),
        ensures
            final(self).wf(),
            final(self).mode() == old(self).mode(),
            final(self).streams() == associated(old(self).streams(), ssrc, cname@),
    {
        let i = self.entry(ssrc);
        let ghost before = self.streams@;
        let name: String = cname.to_owned();
        let same = match &self.streams[i].cname {
            Some(n) => *n == name,
            None => false,
        };
        if !same {
            self.streams[i].cname = Some(name);
            self.streams[i].offset = None;
        }
        proof {
            assert(self.streams@ =~= before.update(i as int, self.streams@[i as int]));
            lemma_touch(before, i as int, self.streams@[i as int]);
            assert(self.streams() =~= old(self).streams().insert(ssrc, self.streams@[i as int]@));
        }
    }

    /// Records a sender report of `ssrc`: the RTP timestamp `rtp` and the
    /// 64-bit NTP timestamp `ntp` name the same instant.
    pub fn add_sender_report(&mut self, ssrc: u32, rtp: u32, ntp: u64)
        requires
            old(self).wf(),
        ensures
            final(self).wf(),
            final(self).mode() == old(self).mode(),
            final(self).streams() == with_sender_report(old(self).streams(), ssrc, rtp, ntp),
    {
        let i = self.entry(ssrc);
        let ghost before = self.streams@;
        let mut timestamps = self.streams[i].timestamps;
        let ext = timestamps.next(rtp);
        self.streams[i].timestamps = timestamps;
        self.streams[i].sender_report = Some((ext, ntp_to_nanos_exec(ntp)));
        proof {
            assert(self.streams@ =~= before.update(i as int, self.streams@[i as int]));
            lemma_touch(before, i as int, self.streams@[i as int]);
            assert(self.streams() =~= old(self).streams().insert(ssrc, self.streams@[i as int]@));
        }
    }

    /// The offset of the group of the stream at `i`, looked up among all streams.
    #[verifier::rlimit(50)]
    fn group_offset_of(&self, i: usize) -> (r: Option<i128>)
        requires
            self.wf(),
            i < self.streams@.len(),
        ensures
            match r {
                Some(o) => group_offset(self.streams(), self.streams@[i as int]@.cname) == Some(
                    o as int,
                ) && exists|j: int|
                    0 <= j < self.streams@.len() && self.streams@[j]@.cname
                        == self.streams@[i as int]@.cname && (#[trigger] self.streams@[j]).offset
                        == Some(o),
                None => group_offset(self.streams(), self.streams@[i as int]@.cname) is None
                    && forall|j: int|
                    0 <= j < self.streams@.len() && self.streams@[i as int].cname is Some
                        && self.streams@[j]@.cname == self.streams@[i as int]@.cname ==> (
                    #[trigger] self.streams@[j]).offset is None,
            },
    {
        let ghost cname = self.streams@[i as int]@.cname;
        let mut j: usize = 0;
        while j < self.streams.len()
            invariant
                self.wf(),
                i < self.streams@.len(),
                j <= self.streams.len(),
                cname == self.streams@[i as int]@.cname,
                forall|k: int|
                    0 <= k < j && cname is Some && self.streams@[k]@.cname == cname ==> (
                    #[trigger] self.streams@[k]).offset is None,
            decreases self.streams.len() - j,
        {
            if let Some(o) = self.streams[j].offset {
                let same = match (&self.streams[i].cname, &self.streams[j].cname) {
                    (Some(a), Some(b)) => *a == *b,
                    _ => false,
                };
                if same {
                    proof {
                        let v = self.streams@;
                        lemma_map_of(v, j as int);
                        assert(aligned_member(self.streams(), cname, v[j as int].ssrc));
                        let c = choose|s: u32| aligned_member(self.streams(), cname, s);
                        let k = choose|k: int| at(v, c, k);
                        lemma_map_of(v, k);
                    }
                    return Some(o);
                }
            }
            j += 1;
        }
        proof {
            let v = self.streams@;
            if exists|s: u32| aligned_member(self.streams(), cname, s) {
                let c = choose|s: u32| aligned_member(self.streams(), cname, s);
                let k = choose|k: int| at(v, c, k);
                lemma_map_of(v, k);
                assert(v[k].offset is None);
            }
        }
        None
    }

    /// Computes the presentation time of a packet of `ssrc` that carries the
    /// RTP timestamp `rtp` and arrived at `arrival` (nanoseconds), and the
    /// sender's wall-clock time of the packet in nanoseconds where a sender
    /// report tells it.
    #[verifier::rlimit(50)]
    pub fn calculate_pts(&mut self, ssrc: u32, rtp: u32, arrival: u64) -> (r: (u64, Option<u64>))
        requires
            old(self).wf(),
        ensures
            final(self).wf(),
            final(self).mode() == old(self).mode(),
            r.0 == step(old(self).mode(), old(self).streams(), ssrc, rtp, arrival).pts,
            r.1 == step(old(self).mode(), old(self).streams(), ssrc, rtp, arrival).ntp,
            final(self).streams() == old(self).streams().insert(
                ssrc,
                step(old(self).mode(), old(self).streams(), ssrc, rtp, arrival).stream,
            ),
    {
        let i = self.entry(ssrc);
        let ghost before = self.streams@;
        let ghost s0 = stream_or_fresh(old(self).streams(), ssrc);
        let mut timestamps = self.streams[i].timestamps;
        let ext = timestamps.next(rtp);
        let base = match self.streams[i].base {
            Some(b) => b,
            None => (arrival, ext),
        };
        let rate = self.streams[i].clock_rate;
        let running: u64 = match rate {
            Some(r) if r > 0 => clamp_exec(
                base.0 as i128 + ticks_to_nanos_exec(ext as i128 - base.1 as i128, r),
            ),
            _ => arrival,
        };
        let ntp: Option<u64> = match (self.streams[i].sender_report, rate) {
            (Some((report_ext, report_ntp)), Some(r)) if r > 0 => Some(
                clamp_exec(
                    report_ntp as i128 + ticks_to_nanos_exec(ext as i128 - report_ext as i128, r),
                ),
            ),
            _ => None,
        };
        let mut pts = running;
        let mut offset = self.streams[i].offset;
        let aligned = match self.mode {
            TimestampingMode::NtpAligned => ntp.is_some(),
            TimestampingMode::RunningTime => false,
        };
        if aligned {
            let n = ntp.unwrap();
            let o: i128 = match offset {
                Some(o) => o,
                None => {
                    proof {
                        if !old(self).streams().dom().contains(ssrc) {
                            assert(s0.cname is None);
                            assert(forall|s: u32| !aligned_member(old(self).streams(), s0.cname, s));
                            assert(forall|s: u32| !aligned_member(self.streams(), s0.cname, s));
                        } else {
                            assert(self.streams() =~= old(self).streams());
                        }
                    }
                    match self.group_offset_of(i) {
                        Some(o) => o,
                        None => running as i128 - n as i128,
                    }
                },
            };
            offset = Some(o);
            pts = clamp_exec(n as i128 + o);
        }
        let back = match self.streams[i].last_pts {
            Some(last) => pts < last,
            None => false,
        };
        if back && self.streams[i].discontinuities < u64::MAX {
            self.streams[i].discontinuities = self.streams[i].discontinuities + 1;
        }
        self.streams[i].last_pts = Some(pts);
        self.streams[i].timestamps = timestamps;
        self.streams[i].base = Some(base);
        self.streams[i].offset = offset;
        proof {
            assert(self.streams@ =~= before.update(i as int, self.streams@[i as int]));
            lemma_touch(before, i as int, self.streams@[i as int]);
            assert(self.streams() =~= old(self).streams().insert(ssrc, self.streams@[i as int]@));
        }
        (pts, ntp)
    }

    /// How often a presentation time of `ssrc` lay before that of the
    /// packet before: each such step back is a discontinuity of the stream.
    pub fn discontinuities(&self, ssrc: u32) -> (r: u64)
        requires
            self.wf(),
        ensures
            r == stream_or_fresh(self.streams(), ssrc).discontinuities,
    {
        match self.index_of(ssrc) {
            Some(i) => self.streams[i].discontinuities,
            None => 0,
        }
    }

    /// The presentation time of the last packet of `ssrc`.
    pub fn last_pts(&self, ssrc: u32) -> (r: Option<u64>)
        requires
            self.wf(),
        ensures
            r == stream_or_fresh(self.streams(), ssrc).last_pts,
    {
        match self.index_of(ssrc) {
            Some(i) => self.streams[i].last_pts,
            None => None,
        }
    }

    /// The mode in which the next packet of `ssrc` is timed: `NtpAligned`
    /// when that mode is configured and a sender report and a clock rate of
    /// the stream are known, `RunningTime` otherwise.
    pub fn mode_of(&self, ssrc: u32) -> (r: TimestampingMode)
        requires
            self.wf(),
        ensures
            r == effective_mode(self.mode(), stream_or_fresh(self.streams(), ssrc)),
    {
        match self.index_of(ssrc) {
            Some(i) => {
                let usable = match (self.streams[i].sender_report, self.streams[i].clock_rate) {
                    (Some(_), Some(r)) => r > 0,
                    _ => false,
                };
                match self.mode {
                    TimestampingMode::NtpAligned => if usable {
                        TimestampingMode::NtpAligned
                    } else {
                        TimestampingMode::RunningTime
                    },
                    TimestampingMode::RunningTime => TimestampingMode::RunningTime,
                }
            },
            None => TimestampingMode::RunningTime,
        }
    }

    /// Every stream of a sound context is valid.
    pub proof fn lemma_streams_valid(&self, ssrc: u32)
        requires
            self.wf(),
        ensures
            valid_stream(stream_or_fresh(self.streams(), ssrc)),
    {
        if self.streams().dom().contains(ssrc) {
            let v = self.streams@;
            let i = choose|i: int| at(v, ssrc, i);
            lemma_map_of(v, i);
        }
    }

    /// Streams that carry one canonical name and have an offset have the
    /// same offset: their presentation times are on one timeline.
    pub proof fn lemma_group_shares_offset(&self, a: u32, b: u32)
        requires
            self.wf(),
            self.streams().dom().contains(a),
            self.streams().dom().contains(b),
            self.streams()[a].cname is Some,
            self.streams()[a].cname == self.streams()[b].cname,
            self.streams()[a].offset is Some,
            self.streams()[b].offset is Some,
        ensures
            self.streams()[a].offset == self.streams()[b].offset,
    {
        let v = self.streams@;
        let i = choose|i: int| at(v, a, i);
        let j = choose|j: int| at(v, b, j);
        lemma_map_of(v, i);
        lemma_map_of(v, j);
    }

    /// Where the stream of `ssrc` stands in the list.
    fn index_of(&self, ssrc: u32) -> (r: Option<usize>)
        requires
            self.wf(),
        ensures
            match r {
                Some(i) => at(self.streams@, ssrc, i as int) && self.streams().dom().contains(ssrc)
                    && self.streams()[ssrc] == self.streams@[i as int]@,
                None => !self.streams().dom().contains(ssrc) && forall|i: int|
                    0 <= i < self.streams@.len() ==> (#[trigger] self.streams@[i]).ssrc != ssrc,
            },
    {
        let mut i: usize = 0;
        while i < self.streams.len()
            invariant
                self.wf(),
                i <= self.streams.len(),
                forall|j: int| 0 <= j < i ==> (#[trigger] self.streams@[j]).ssrc != ssrc,
            decreases self.streams.len() - i,
        {
            if self.streams[i].ssrc == ssrc {
                proof {
                    lemma_map_of(self.streams@, i as int);
                }
                return Some(i);
            }
            i += 1;
        }
        proof {
            if map_of(self.streams@).dom().contains(ssrc) {
                let c = choose|c: int| at(self.streams@, ssrc, c);
                assert(self.streams@[c].ssrc != ssrc);
            }
        }
        None
    }

    /// Finds the stream of `ssrc`, or adds a fresh one.
    fn entry(&mut self, ssrc: u32) -> (i: usize)
        requires
            old(self).wf(),
        ensures
            final(self).wf(),
            final(self).mode() == old(self).mode(),
            at(final(self).streams@, ssrc, i as int),
            final(self).streams@[i as int]@ == stream_or_fresh(old(self).streams(), ssrc),
            final(self).streams() == old(self).streams().insert(
                ssrc,
                stream_or_fresh(old(self).streams(), ssrc),
            ),
            forall|j: int|
                0 <= j < old(self).streams@.len() ==> #[trigger] final(self).streams@[j] == old(
                    self,
                ).streams@[j],
            old(self).streams@.len() <= final(self).streams@.len() <= old(self).streams@.len() + 1,
    {
        match self.index_of(ssrc) {
            Some(i) => {
                proof {
                    assert(self.streams().insert(ssrc, self.streams()[ssrc]) =~= self.streams());
                }
                i
            },
            None => {
                let stream = Stream {
                    ssrc,
                    clock_rate: None,
                    cname: None,
                    timestamps: ExtendedTimestamp::new(),
                    base: None,
                    sender_report: None,
                    offset: None,
                    last_pts: None,
                    discontinuities: 0,
                };
                proof {
                    lemma_map_of_push(self.streams@, stream);
                }
                self.streams.push(stream);
                self.streams.len() - 1
            },
        }
    }
}


/// Presentation times of one stream never go back: of two packets of one
/// stream that are timed one after the other, with nothing else done to the
/// context in between, the one with the later extended RTP timestamp (and
/// no earlier arrival) gets no earlier presentation time, and no
/// discontinuity is counted. This holds in both modes, and also where the
/// first packet is the one that fixes the stream's base or its offset.
#[verifier::rlimit(50)]
pub proof fn lemma_pts_never_goes_back(
    mode: TimestampingMode,
    streams: Map<u32, StreamView>,
    ssrc: u32,
    rtp1: u32,
    arrival1: u64,
    rtp2: u32,
    arrival2: u64,
)
    requires
        valid_stream(stream_or_fresh(streams, ssrc)),
        arrival1 <= arrival2,
        ({
            let s = stream_or_fresh(streams, ssrc);
            let first = step(mode, streams, ssrc, rtp1, arrival1);
            extended(s.highest, rtp1 as int, TS_MOD as int) <= extended(
                first.stream.highest,
                rtp2 as int,
                TS_MOD as int,
            )
        }),
    ensures
        ({
            let first = step(mode, streams, ssrc, rtp1, arrival1);
            let second = step(mode, streams.insert(ssrc, first.stream), ssrc, rtp2, arrival2);
            &&& first.pts <= second.pts
            &&& !second.discont
            &&& second.stream.discontinuities == first.stream.discontinuities
        }),
{
    let s = stream_or_fresh(streams, ssrc);
    let first = step(mode, streams, ssrc, rtp1, arrival1);
    if s.highest is Some {
        crate::seqnum::lemma_nearest_congruent(s.highest->0 as int, rtp1 as int, TS_MOD as int);
    }
    crate::seqnum::lemma_nearest_congruent(
        first.stream.highest->0 as int,
        rtp2 as int,
        TS_MOD as int,
    );
    let ext1 = extended(s.highest, rtp1 as int, TS_MOD as int);
    let ext2 = extended(first.stream.highest, rtp2 as int, TS_MOD as int);
    let base = first.stream.base->0;
    if s.clock_rate is Some && s.clock_rate->0 > 0 {
        let r = s.clock_rate->0;
        lemma_ticks_monotonic(ext1 - base.1, ext2 - base.1, r);
        if s.sender_report is Some {
            let report = s.sender_report->0;
            lemma_ticks_monotonic(ext1 - report.0, ext2 - report.0, r);
        }
    }
}

/// Presentation times go on across a rollover of the 32-bit RTP timestamp:
/// when a packet carries the highest timestamp of its stream so far and the
/// next one is `ahead` units later (no more than half a cycle), then the
/// extended timestamp of the next one is `ahead` higher although its raw
/// timestamp may have wrapped around, and its presentation time is no
/// earlier.
#[verifier::rlimit(50)]
pub proof fn lemma_pts_across_rollover(
    mode: TimestampingMode,
    streams: Map<u32, StreamView>,
    ssrc: u32,
    rtp1: u32,
    arrival1: u64,
    ahead: u32,
    arrival2: u64,
)
    requires
        valid_stream(stream_or_fresh(streams, ssrc)),
        arrival1 <= arrival2,
        ahead <= TS_MOD / 2,
        ({
            let s = stream_or_fresh(streams, ssrc);
            let ext1 = extended(s.highest, rtp1 as int, TS_MOD as int);
            &&& s.highest is Some ==> s.highest->0 <= ext1
            &&& ext1 + ahead < u64::MAX
        }),
    ensures
        ({
            let s = stream_or_fresh(streams, ssrc);
            let rtp2 = ((rtp1 + ahead) % (TS_MOD as int)) as u32;
            let first = step(mode, streams, ssrc, rtp1, arrival1);
            let second = step(mode, streams.insert(ssrc, first.stream), ssrc, rtp2, arrival2);
            &&& extended(first.stream.highest, rtp2 as int, TS_MOD as int) == extended(
                s.highest,
                rtp1 as int,
                TS_MOD as int,
            ) + ahead
            &&& first.pts <= second.pts
        }),
{
    let s = stream_or_fresh(streams, ssrc);
    let rtp2 = ((rtp1 + ahead) % (TS_MOD as int)) as u32;
    let first = step(mode, streams, ssrc, rtp1, arrival1);
    let ext1 = extended(s.highest, rtp1 as int, TS_MOD as int);
    if s.highest is Some {
        crate::seqnum::lemma_nearest_congruent(s.highest->0 as int, rtp1 as int, TS_MOD as int);
    }
    assert(ext1 % (TS_MOD as int) == rtp1);
    assert(first.stream.highest == Some(ext1 as u64));
    crate::seqnum::lemma_nearest_advances(ext1, rtp1 as int, ahead as int, TS_MOD as int);
    lemma_pts_never_goes_back(mode, streams, ssrc, rtp1, arrival1, rtp2, arrival2);
}

/// Two packets of two streams that were sent at the same wall-clock
/// instant, as the streams' sender reports and clock rates tell it, get the
/// same wall-clock time, and with one offset the same presentation time.
/// The instant of a packet is that of its report plus the distance in RTP
/// time; the two instants are compared as fractions, without rounding.
#[verifier::rlimit(50)]
pub proof fn lemma_simultaneous_packets_align(
    report_a: (u64, u64),
    rate_a: u32,
    ext_a: u64,
    report_b: (u64, u64),
    rate_b: u32,
    ext_b: u64,
    offset: int,
)
    requires
        rate_a > 0,
        rate_b > 0,
        (report_a.1 * rate_a + (ext_a - report_a.0) * NANOS) * rate_b == (report_b.1 * rate_b + (
        ext_b - report_b.0) * NANOS) * rate_a,
    ensures
        ntp_of(Some(report_a), Some(rate_a), ext_a) == ntp_of(Some(report_b), Some(rate_b), ext_b),
        aligned_pts(ntp_of(Some(report_a), Some(rate_a), ext_a)->0, offset) == aligned_pts(
            ntp_of(Some(report_b), Some(rate_b), ext_b)->0,
            offset,
        ),
{
    let na: int = (ext_a - report_a.0) * NANOS;
    let nb: int = (ext_b - report_b.0) * NANOS;
    let ra: int = rate_a as int;
    let rb: int = rate_b as int;
    let qa = na / ra;
    let qb = nb / rb;
    let ma = na % ra;
    let mb = nb % rb;
    lemma_fundamental_div_mod(na, ra);
    lemma_fundamental_div_mod(nb, rb);
    lemma_mod_bound(na, ra);
    lemma_mod_bound(nb, rb);
    let x: int = report_a.1 + qa;
    let y: int = report_b.1 + qb;
    let p: int = ra * rb;
    assert(p * (x - y) == mb * ra - ma * rb) by (nonlinear_arith)
        requires
            na == ra * qa + ma,
            nb == rb * qb + mb,
            (report_a.1 * ra + na) * rb == (report_b.1 * rb + nb) * ra,
            x == report_a.1 + qa,
            y == report_b.1 + qb,
            p == ra * rb,
    ;
    assert(-p < mb * ra - ma * rb < p) by (nonlinear_arith)
        requires
            0 <= ma < ra,
            0 <= mb < rb,
            p == ra * rb,
    ;
    assert(x == y) by (nonlinear_arith)
        requires
            -p < p * (x - y) < p,
            p > 0,
    ;
}

} // verus!

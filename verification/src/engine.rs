//! The engine: the sessions of one element, the synchronisation context
//! that they share, and the schedule of their RTCP packets.

use vstd::prelude::*;
use vstd::string::StringSliceAdditionalSpecFns;
use crate::config::{parse_session_id, session_id_of, Settings};
use crate::packet::{
    classified, classify, views, Address, Datagram, RtcpPacket, RtcpPacketView, RtpPacket,
};
use crate::rtcp::{is_compound, packets_from, parse_rtcp};
use crate::config::{clock_rate_from_caps, pt_clock_rate_from_caps};
use crate::receiver::{
    none_missing, rtp_received, serialized, serialized_in, streams_polled, Receiver, ReceiverView,
    RecvAction, RecvStreamView, StreamPoll,
};
use crate::session::{
    armed, deadline, initial, key_unit_requested, notes, recv_ended, rtcp_received, rtcp_sent,
    send_ended, send_replies_to, session_after_send, KeyUnitRequestType,
    RequestRemoteKeyUnitReply, RtcpNote, RtcpRecvReply, SendReply, Session, SessionView,
    RTCP_MIN_REPORT_INTERVAL,
};
use crate::sync::{
    associated, step, with_clock_rate, with_sender_report, Context, StreamView, TimestampingMode,
};

verus! {

/// The pads of a session that the caller asks for.
#[derive(Debug, Clone, Copy, PartialEq, Eq, Structural)]
pub enum PadKind {
    /// Where received RTP comes in.
    RtpRecvSink,
    /// Where RTP that is to be sent comes in.
    RtpSendSink,
    /// Where received RTCP comes in.
    RtcpRecvSink,
    /// Where RTCP that is to be sent goes out.
    RtcpSendSrc,
}

/// Which pads of a session exist.
#[derive(Debug, Clone, Copy, PartialEq, Eq, Structural)]
pub struct Pads {
    pub rtp_recv_sink: bool,
    pub rtp_send_sink: bool,
    pub rtcp_recv_sink: bool,
    pub rtcp_send_src: bool,
}

/// Why the engine did nothing.
#[derive(Debug, Clone, Copy, PartialEq, Eq, Structural)]
pub enum EngineError {
    /// There is no session with this id.
    NoSession,
    /// The engine was not started, or was stopped.
    NotStarted,
}

/// One session of the engine with what belongs to it.
pub struct BinSession {
    id: usize,
    receiver: Receiver,
    pads: Pads,
    recv_clock_rate: Option<u32>,
    known: Vec<(u8, u32)>,
}

/// A session of the engine as contracts speak of it.
pub struct BinSessionView {
    pub id: usize,
    pub receiver: ReceiverView,
    pub pads: Pads,
    /// The clock rate that was negotiated for received RTP.
    pub recv_clock_rate: Option<u32>,
    /// Payload types and ssrcs of which the clock rate was told to the
    /// synchronisation context.
    pub known: Seq<(u8, u32)>,
}

impl View for BinSession {
    type V = BinSessionView;

    closed spec fn view(&self) -> BinSessionView {
        BinSessionView {
            id: self.id,
            receiver: self.receiver@,
            pads: self.pads,
            recv_clock_rate: self.recv_clock_rate,
            known: self.known@,
        }
    }
}

/// The synchronisation context as contracts speak of it.
pub struct SyncView {
    pub mode: TimestampingMode,
    pub streams: Map<u32, StreamView>,
}

/// The engine as contracts speak of it.
pub struct EngineView {
    pub settings: Settings,
    /// The sessions, in the order in which they were made.
    pub sessions: Seq<BinSessionView>,
    /// One more than the highest id that a session had.
    pub max_session_id: usize,
    /// The synchronisation context, while the engine runs.
    pub sync: Option<SyncView>,
}

/// No pad.
pub open spec fn no_pads() -> Pads {
    Pads { rtp_recv_sink: false, rtp_send_sink: false, rtcp_recv_sink: false, rtcp_send_src: false }
}

/// Whether the pads hold the pad of the kind.
pub open spec fn has_pad(pads: Pads, kind: PadKind) -> bool {
    match kind {
        PadKind::RtpRecvSink => pads.rtp_recv_sink,
        PadKind::RtpSendSink => pads.rtp_send_sink,
        PadKind::RtcpRecvSink => pads.rtcp_recv_sink,
        PadKind::RtcpSendSrc => pads.rtcp_send_src,
    }
}

/// The pads with the pad of the kind there or not.
pub open spec fn with_pad(pads: Pads, kind: PadKind, there: bool) -> Pads {
    match kind {
        PadKind::RtpRecvSink => Pads { rtp_recv_sink: there, ..pads },
        PadKind::RtpSendSink => Pads { rtp_send_sink: there, ..pads },
        PadKind::RtcpRecvSink => Pads { rtcp_recv_sink: there, ..pads },
        PadKind::RtcpSendSrc => Pads { rtcp_send_src: there, ..pads },
    }
}

/// The index of the session `id` at or behind `from`, or the number of
/// sessions where there is none.
pub open spec fn session_position(sessions: Seq<BinSessionView>, id: usize, from: int) -> int
    decreases sessions.len() - from,
{
    if from < 0 || from >= sessions.len() {
        sessions.len() as int
    } else if sessions[from].id == id {
        from
    } else {
        session_position(sessions, id, from + 1)
    }
}

/// A session that was just made, with the canonical name `cname`.
pub open spec fn new_session(id: usize, settings: Settings, cname: Seq<char>) -> BinSessionView {
    BinSessionView {
        id,
        receiver: ReceiverView {
            session: SessionView {
                min_rtcp_interval: settings.min_rtcp_interval,
                profile: settings.profile,
                reduced_size_rtcp: settings.reduced_size_rtcp,
                ..initial(cname)
            },
            streams: Seq::empty(),
            store: Seq::empty(),
            latency: settings.latency,
        },
        pads: no_pads(),
        recv_clock_rate: None,
        known: Seq::empty(),
    }
}

/// How the names of the pads of a kind begin.
pub open spec fn pad_prefix(kind: PadKind) -> Seq<u8> {
    match kind {
        PadKind::RtpRecvSink => "rtp_recv_sink_".spec_bytes(),
        PadKind::RtpSendSink => "rtp_send_sink_".spec_bytes(),
        PadKind::RtcpRecvSink => "rtcp_recv_sink_".spec_bytes(),
        PadKind::RtcpSendSrc => "rtcp_send_src_".spec_bytes(),
    }
}

/// Whether a pad of the kind is granted to the session `id`. A pad for
/// RTP makes the session where there is none; a pad for RTCP needs the
/// session. No session has two pads of a kind; a pad for received RTP is
/// also refused to a session that has the pad for RTP to be sent.
pub open spec fn pad_granted(sessions: Seq<BinSessionView>, kind: PadKind, id: usize) -> bool {
    let i = session_position(sessions, id, 0);
    if i < sessions.len() {
        match kind {
            PadKind::RtpRecvSink => !sessions[i].pads.rtp_send_sink,
            _ => !has_pad(sessions[i].pads, kind),
        }
    } else {
        kind == PadKind::RtpRecvSink || kind == PadKind::RtpSendSink
    }
}

/// One more than `id`, or the largest value.
pub open spec fn id_after(id: usize) -> usize {
    if id < usize::MAX {
        (id + 1) as usize
    } else {
        id
    }
}

/// The canonical name of the session `id`.
pub open spec fn cname_of(v: EngineView, id: usize) -> Seq<char> {
    v.sessions[session_position(v.sessions, id, 0)].receiver.session.cname
}

/// The engine after the pad of the kind was given to the session `id`;
/// `cname` is the canonical name of the session where it is made.
pub open spec fn with_pad_given(v: EngineView, kind: PadKind, id: usize, cname: Seq<char>) -> EngineView {
    let i = session_position(v.sessions, id, 0);
    let all = if i < v.sessions.len() {
        v.sessions
    } else {
        v.sessions.push(new_session(id, v.settings, cname))
    };
    EngineView {
        sessions: all.update(
            i,
            BinSessionView { pads: with_pad(all[i].pads, kind, true), ..all[i] },
        ),
        max_session_id: if id_after(id) > v.max_session_id {
            id_after(id)
        } else {
            v.max_session_id
        },
        ..v
    }
}

/// The engine after the pad of the kind was taken from the session `id`.
/// With the pad for received RTP go the received streams and the packets
/// that wait; a session without pads is forgotten.
pub open spec fn with_pad_released(v: EngineView, id: usize, kind: PadKind) -> EngineView {
    let i = session_position(v.sessions, id, 0);
    if i >= v.sessions.len() || !has_pad(v.sessions[i].pads, kind) {
        v
    } else {
        let s = v.sessions[i];
        let t = BinSessionView {
            pads: with_pad(s.pads, kind, false),
            receiver: if kind == PadKind::RtpRecvSink {
                cleared(s.receiver)
            } else {
                s.receiver
            },
            ..s
        };
        EngineView {
            sessions: if t.pads == no_pads() {
                v.sessions.remove(i)
            } else {
                v.sessions.update(i, t)
            },
            ..v
        }
    }
}

/// The receiving side after its streams and the packets that waited were
/// forgotten.
pub open spec fn cleared(r: ReceiverView) -> ReceiverView {
    ReceiverView {
        session: SessionView { held: Seq::empty(), ..r.session },
        streams: Seq::empty(),
        store: Seq::empty(),
        ..r
    }
}

/// A session after the engine was stopped: the received streams, the
/// packets that wait and what was negotiated for received RTP are gone.
pub open spec fn stopped(s: BinSessionView) -> BinSessionView {
    BinSessionView {
        receiver: cleared(s.receiver),
        recv_clock_rate: None,
        known: Seq::empty(),
        ..s
    }
}

/// Where no two sessions have one id, the session `id` stands where a
/// session with this id stands.
pub proof fn lemma_session_position(sessions: Seq<BinSessionView>, id: usize, i: int)
    requires
        0 <= i < sessions.len(),
        sessions[i].id == id,
        forall|a: int, b: int|
            0 <= a < b < sessions.len() ==> (#[trigger] sessions[a]).id != (#[trigger] sessions[b]).id,
    ensures
        session_position(sessions, id, 0) == i,
{
    lemma_session_position_from(sessions, id, i, 0);
}

proof fn lemma_session_position_from(sessions: Seq<BinSessionView>, id: usize, i: int, from: int)
    requires
        0 <= from <= i < sessions.len(),
        sessions[i].id == id,
        forall|a: int, b: int|
            0 <= a < b < sessions.len() ==> (#[trigger] sessions[a]).id != (#[trigger] sessions[b]).id,
    ensures
        session_position(sessions, id, from) == i,
    decreases i - from,
{
    if from < i {
        assert(sessions[from].id != sessions[i].id);
        lemma_session_position_from(sessions, id, i, from + 1);
    }
}

/// What receiving an RTP packet gave.
#[derive(Debug, PartialEq, Eq)]
pub struct Received {
    /// The presentation time of the packet.
    pub pts: u64,
    /// The sender's wall-clock time of the packet in nanoseconds, where known.
    pub ntp_time: Option<u64>,
    /// What the caller does with the packet and with those it holds.
    pub actions: Vec<RecvAction>,
}

/// What the engine has to send.
#[derive(Debug, PartialEq, Eq)]
pub enum RtcpPoll {
    /// This RTCP packet of the session with this id.
    Send { data: Vec<u8>, session: usize },
    /// Nothing before this instant.
    Wait(u64),
}

/// What the engine has to send, as contracts speak of it.
pub enum RtcpPollView {
    Send { data: Seq<u8>, session: usize },
    Wait(u64),
}

impl View for RtcpPoll {
    type V = RtcpPollView;

    open spec fn view(&self) -> RtcpPollView {
        match *self {
            RtcpPoll::Send { data, session } => RtcpPollView::Send { data: data@, session },
            RtcpPoll::Wait(t) => RtcpPollView::Wait(t),
        }
    }
}

/// The session at `i`.
pub open spec fn session_at(v: EngineView, i: int) -> SessionView {
    v.sessions[i].receiver.session
}

/// The engine with the receiving side of the session at `i` replaced.
pub open spec fn with_receiver(v: EngineView, i: int, r: ReceiverView) -> EngineView {
    EngineView { sessions: v.sessions.update(i, BinSessionView { receiver: r, ..v.sessions[i] }), ..v }
}

/// The engine with the session at `i` replaced.
pub open spec fn with_session(v: EngineView, i: int, s: SessionView) -> EngineView {
    with_receiver(v, i, ReceiverView { session: s, ..v.sessions[i].receiver })
}

/// The engine after the session at `i` received an RTP packet, while the
/// engine runs; with the presentation time of the packet, the wall-clock
/// time of its sender and what the caller does.
///
/// The first packet of a payload type and source tells the
/// synchronisation context the clock rate that was negotiated; then the
/// context works out the presentation time, and the receiving side of the
/// session takes the packet in with it. No action is about a packet that
/// is not held.
pub open spec fn rtp_taken(
    v: EngineView,
    i: int,
    p: RtpPacket,
    from: Option<Address>,
    arrival: u64,
    now: u64,
) -> (EngineView, u64, Option<u64>, Seq<RecvAction>) {
    let s = v.sessions[i];
    let sync = v.sync->0;
    let tell = !s.known.contains((p.payload_type, p.ssrc)) && s.recv_clock_rate is Some;
    let streams = if tell {
        with_clock_rate(sync.streams, p.ssrc, s.recv_clock_rate->0)
    } else {
        sync.streams
    };
    let st = step(sync.mode, streams, p.ssrc, p.timestamp, arrival);
    let (receiver, actions) = rtp_received(s.receiver, p, st.pts, from, now);
    (
        EngineView {
            sessions: v.sessions.update(
                i,
                BinSessionView {
                    receiver,
                    known: if tell {
                        s.known.push((p.payload_type, p.ssrc))
                    } else {
                        s.known
                    },
                    ..s
                },
            ),
            sync: Some(SyncView { mode: sync.mode, streams: streams.insert(p.ssrc, st.stream) }),
            ..v
        },
        st.pts,
        st.ntp,
        actions,
    )
}

/// The streams of the synchronisation context after it was told what the
/// replies to an RTCP packet tell it: canonical names and sender reports.
pub open spec fn synced(streams: Map<u32, StreamView>, replies: Seq<RtcpNote>) -> Map<u32, StreamView>
    decreases replies.len(),
{
    if replies.len() == 0 {
        streams
    } else {
        let before = synced(streams, replies.drop_last());
        match replies.last() {
            RtcpNote::NewCName(cname, ssrc) => associated(before, ssrc, cname),
            RtcpNote::NewRtpNtp(ssrc, rtp, ntp) => with_sender_report(before, ssrc, rtp, ntp),
            _ => before,
        }
    }
}

/// The engine after the session at `i` received a compound RTCP packet of
/// `size` bytes, while the engine runs, and what it asks of the caller:
/// the session takes the packets in, and the synchronisation context is
/// told the canonical names and sender reports in them.
pub open spec fn rtcp_taken(
    v: EngineView,
    i: int,
    packets: Seq<RtcpPacketView>,
    size: usize,
    from: Option<Address>,
    now: u64,
    ntp_now: u64,
) -> (EngineView, Seq<RtcpNote>) {
    let t = rtcp_received(session_at(v, i), packets, size, from, now, ntp_now);
    (
        EngineView {
            sync: Some(SyncView { mode: v.sync->0.mode, streams: synced(v.sync->0.streams, t.1) }),
            ..with_session(v, i, t.0)
        },
        t.1,
    )
}

/// What a datagram that arrived where RTP is expected gave.
#[derive(Debug, PartialEq, Eq)]
pub enum Ingress {
    /// It was an RTP packet: its time, and what to do with it.
    Rtp(Received),
    /// It was RTCP: what it asks of the caller.
    Rtcp(Vec<RtcpRecvReply>),
    /// It was neither: it is dropped.
    Malformed,
}

/// The session after a payload type got its clock rate from negotiated
/// properties, where they hold both and both are in range.
pub open spec fn with_pt_clock_rate(s: SessionView, clock_rate: Option<i32>, payload: Option<i32>) -> SessionView {
    match (clock_rate, payload) {
        (Some(c), Some(p)) if 0 <= p <= 127 && c > 0 => SessionView {
            clock_rates: seq![(p as u8, c as u32)] + s.clock_rates,
            ..s
        },
        _ => s,
    }
}

/// The sessions after each was asked for the time of its next RTCP packet.
pub open spec fn all_armed(sessions: Seq<BinSessionView>, now: u64, rnd: u32) -> Seq<BinSessionView> {
    sessions.map_values(
        |s: BinSessionView|
            BinSessionView {
                receiver: ReceiverView { session: armed(s.receiver.session, now, rnd), ..s.receiver },
                ..s
            },
    )
}

/// The session whose RTCP packet is due first, with its deadline: the
/// first of them where several are due at the same instant.
pub open spec fn first_deadline(sessions: Seq<BinSessionView>) -> Option<(int, u64)>
    decreases sessions.len(),
{
    if sessions.len() == 0 {
        None
    } else {
        let before = first_deadline(sessions.drop_last());
        match deadline(sessions.last().receiver.session) {
            Some(t) => match before {
                Some((k, b)) if b <= t => before,
                _ => Some((sessions.len() - 1, t)),
            },
            None => before,
        }
    }
}

/// The instant until which the caller waits where no session has a
/// deadline: half the shortest interval between reports from `now`.
pub open spec fn idle_wait(now: u64) -> u64 {
    if now + RTCP_MIN_REPORT_INTERVAL / 2 > u64::MAX {
        u64::MAX
    } else {
        (now + RTCP_MIN_REPORT_INTERVAL / 2) as u64
    }
}

/// The engine after it was asked for the next RTCP packet at `now`, and
/// the answer. Every session is asked for its deadline. Where the
/// earliest of them has come, the packet of that session is made; else
/// the answer is the earliest deadline, or where there is none, a wait
/// of half the shortest interval between reports.
pub open spec fn rtcp_polled(v: EngineView, now: u64, ntp_now: u64, rnd: u32) -> (
    EngineView,
    RtcpPollView,
) {
    let ready = all_armed(v.sessions, now, rnd);
    let w = EngineView { sessions: ready, ..v };
    match first_deadline(ready) {
        Some((k, t)) if t <= now => {
            let out = rtcp_sent(ready[k].receiver.session, now, ntp_now, rnd);
            (with_session(w, k, out.0), RtcpPollView::Send { data: out.1, session: ready[k].id })
        },
        Some((k, t)) => (w, RtcpPollView::Wait(t)),
        None => (w, RtcpPollView::Wait(idle_wait(now))),
    }
}

/// The deadline found is that of a session, and no session has an
/// earlier one: a session whose packet is due is never passed over for
/// one whose packet is due later.
#[verifier::rlimit(50)]
pub proof fn lemma_first_deadline(sessions: Seq<BinSessionView>)
    ensures
        match first_deadline(sessions) {
            Some((k, t)) => 0 <= k < sessions.len() && deadline(sessions[k].receiver.session)
                == Some(t) && forall|j: int|
                0 <= j < sessions.len() && deadline(#[trigger] sessions[j].receiver.session)
                    is Some ==> t <= deadline(sessions[j].receiver.session)->0,
            None => forall|j: int|
                0 <= j < sessions.len() ==> deadline(#[trigger] sessions[j].receiver.session)
                    is None,
        },
    decreases sessions.len(),
{
    if sessions.len() > 0 {
        let d = sessions.drop_last();
        lemma_first_deadline(d);
        assert forall|j: int| 0 <= j < d.len() implies d[j] == sessions[j] by {}
        match first_deadline(sessions) {
            Some((k, t)) => {
                assert forall|j: int|
                    0 <= j < sessions.len() && deadline(#[trigger] sessions[j].receiver.session)
                        is Some implies t <= deadline(sessions[j].receiver.session)->0 by {
                    if j < d.len() {
                        assert(d[j] == sessions[j]);
                    }
                }
            },
            None => {
                assert forall|j: int| 0 <= j < sessions.len() implies deadline(
                    #[trigger] sessions[j].receiver.session,
                ) is None by {
                    if j < d.len() {
                        assert(d[j] == sessions[j]);
                    }
                }
            },
        }
    }
}

/// Changing one session keeps the engine sound, as long as the session
/// keeps its id and its receiving side stays sound.
#[verifier::rlimit(50)]
proof fn lemma_touch(before: Seq<BinSession>, after: Seq<BinSession>, i: int)
    requires
        0 <= i < before.len(),
        after =~= before.update(i, after[i]),
        after[i].id == before[i].id,
        forall|a: int, b: int|
            0 <= a < b < before.len() ==> (#[trigger] before[a]).id != (#[trigger] before[b]).id,
        forall|j: int| 0 <= j < before.len() ==> (#[trigger] before[j]).receiver.wf(),
        after[i].receiver.wf(),
    ensures
        forall|a: int, b: int|
            0 <= a < b < after.len() ==> (#[trigger] after[a]).id != (#[trigger] after[b]).id,
        forall|j: int| 0 <= j < after.len() ==> (#[trigger] after[j]).receiver.wf(),
        after.map_values(|s: BinSession| s@) == before.map_values(|s: BinSession| s@).update(
            i,
            after[i]@,
        ),
{
    assert forall|a: int, b: int| 0 <= a < b < after.len() implies (#[trigger] after[a]).id != (
    #[trigger] after[b]).id by {
        assert(before[a].id != before[b].id);
    }
    assert forall|j: int| 0 <= j < after.len() implies (#[trigger] after[j]).receiver.wf() by {
        if j != i {
            assert(after[j] == before[j]);
        }
    }
    assert(after.map_values(|s: BinSession| s@) =~= before.map_values(|s: BinSession| s@).update(
        i,
        after[i]@,
    ));
}

/// The engine.
pub struct Engine {
    settings: Settings,
    sessions: Vec<BinSession>,
    max_session_id: usize,
    sync_context: Option<Context>,
}

impl View for Engine {
    type V = EngineView;

    closed spec fn view(&self) -> EngineView {
        EngineView {
            settings: self.settings,
            sessions: self.sessions@.map_values(|s: BinSession| s@),
            max_session_id: self.max_session_id,
            sync: match self.sync_context {
                Some(c) => Some(SyncView { mode: c.mode(), streams: c.streams() }),
                None => None,
            },
        }
    }
}

impl BinSession {
    /// A session with the given id and settings.
    fn new(id: usize, settings: &Settings) -> (r: Self)
        ensures
            r.receiver.wf(),
            r@ == new_session(id, *settings, r@.receiver.session.cname),
    {
        let mut session = Session::new();
        session.set_min_rtcp_interval(settings.min_rtcp_interval);
        session.set_profile(settings.profile);
        session.set_reduced_size_rtcp(settings.reduced_size_rtcp);
        BinSession {
            id,
            receiver: Receiver::new(session, settings.latency),
            pads: Pads {
                rtp_recv_sink: false,
                rtp_send_sink: false,
                rtcp_recv_sink: false,
                rtcp_send_src: false,
            },
            recv_clock_rate: None,
            known: Vec::new(),
        }
    }
}

impl Engine {
    /// The engine's invariant: that of each session and of the
    /// synchronisation context, and no two sessions with one id.
    pub closed spec fn wf(&self) -> bool {
        &&& forall|i: int| 0 <= i < self.sessions@.len() ==> (#[trigger] self.sessions@[i]).receiver.wf()
        &&& forall|i: int, j: int|
            0 <= i < j < self.sessions@.len() ==> (#[trigger] self.sessions@[i]).id != (
            #[trigger] self.sessions@[j]).id
        &&& self.sync_context is Some ==> self.sync_context->0.wf()
    }

    /// No two sessions of the engine have the same id.
    pub proof fn lemma_ids_unique(&self)
        requires
            self.wf(),
        ensures
            forall|i: int, j: int|
                0 <= i < j < self@.sessions.len() ==> (#[trigger] self@.sessions[i]).id != (
                #[trigger] self@.sessions[j]).id,
    {
        assert forall|i: int, j: int| 0 <= i < j < self@.sessions.len() implies (
        #[trigger] self@.sessions[i]).id != (#[trigger] self@.sessions[j]).id by {
            assert(self.sessions@[i].id != self.sessions@[j].id);
        }
    }

    /// An engine without sessions that is not running.
    pub fn new(settings: Settings) -> (r: Self)
        ensures
            r.wf(),
            r@ == (EngineView { settings, sessions: Seq::empty(), max_session_id: 0, sync: None }),
    {
        let r = Engine { settings, sessions: Vec::new(), max_session_id: 0, sync_context: None };
        proof {
            assert(r@.sessions =~= Seq::empty());
        }
        r
    }

    /// The settings.
    pub fn settings(&self) -> (r: Settings)
        ensures
            r == self@.settings,
    {
        self.settings
    }

    /// Replaces the settings. Sessions that exist keep theirs.
    pub fn set_settings(&mut self, settings: Settings)
        ensures
            final(self)@ == (EngineView { settings, ..old(self)@ }),
            old(self).wf() ==> final(self).wf(),
    {
        self.settings = settings;
    }

    /// Where the session `id` stands.
    fn find(&self, id: usize) -> (r: usize)
        ensures
            r == session_position(self@.sessions, id, 0),
            r <= self.sessions@.len(),
            r < self.sessions@.len() ==> self.sessions@[r as int].id == id,
            r == self.sessions@.len() ==> forall|j: int|
                0 <= j < self.sessions@.len() ==> (#[trigger] self.sessions@[j]).id != id,
    {
        let mut i: usize = 0;
        while i < self.sessions.len()
            invariant
                i <= self.sessions.len(),
                session_position(self@.sessions, id, 0) == session_position(
                    self@.sessions,
                    id,
                    i as int,
                ),
                forall|j: int| 0 <= j < i ==> (#[trigger] self.sessions@[j]).id != id,
            decreases self.sessions.len() - i,
        {
            if self.sessions[i].id == id {
                return i;
            }
            i += 1;
        }
        i
    }

    /// Whether there is a session `id`.
    pub fn has_session(&self, id: usize) -> (r: bool)
        ensures
            r == (session_position(self@.sessions, id, 0) < self@.sessions.len()),
    {
        self.find(id) < self.sessions.len()
    }

    /// The ids of the sessions, in the order in which they were made.
    pub fn session_ids(&self) -> (r: Vec<usize>)
        ensures
            r@ == self@.sessions.map_values(|s: BinSessionView| s.id),
    {
        let mut r: Vec<usize> = Vec::new();
        let mut i: usize = 0;
        while i < self.sessions.len()
            invariant
                i <= self.sessions.len(),
                r@.len() == i,
                forall|j: int| 0 <= j < i ==> r@[j] == (#[trigger] self.sessions@[j]).id,
            decreases self.sessions.len() - i,
        {
            r.push(self.sessions[i].id);
            i += 1;
        }
        proof {
            assert(r@ =~= self@.sessions.map_values(|s: BinSessionView| s.id));
        }
        r
    }

    /// The id that a session gets where the name of its pad tells none.
    pub fn max_session_id(&self) -> (r: usize)
        ensures
            r == self@.max_session_id,
    {
        self.max_session_id
    }

    /// Whether the engine runs.
    pub fn is_started(&self) -> (r: bool)
        ensures
            r == self@.sync is Some,
    {
        self.sync_context.is_some()
    }

    /// Starts the engine: a synchronisation context is made, with the
    /// timestamping mode of the settings.
    pub fn start(&mut self)
        requires
            old(self).wf(),
        ensures
            final(self).wf(),
            final(self)@ == (EngineView {
                sync: Some(SyncView { mode: old(self)@.settings.timestamping_mode, streams: Map::empty() }),
                ..old(self)@
            }),
    {
        self.sync_context = Some(Context::new(self.settings.timestamping_mode));
    }

    /// Stops the engine: the synchronisation context goes, and with it the
    /// received streams of all sessions and the packets that wait.
    #[verifier::rlimit(50)]
    pub fn stop(&mut self)
        requires
            old(self).wf(),
        ensures
            final(self).wf(),
            final(self)@ == (EngineView {
                sessions: old(self)@.sessions.map_values(|s: BinSessionView| stopped(s)),
                sync: None,
                ..old(self)@
            }),
    {
        let mut i: usize = 0;
        let ghost all = self@.sessions;
        while i < self.sessions.len()
            invariant
                i <= self.sessions.len(),
                self.wf(),
                all == old(self)@.sessions,
                self.sessions@.len() == all.len(),
                self@ == (EngineView { sessions: self@.sessions, ..old(self)@ }),
                forall|j: int| 0 <= j < i ==> (#[trigger] self.sessions@[j])@ == stopped(all[j]),
                forall|j: int| i <= j < all.len() ==> (#[trigger] self.sessions@[j])@ == all[j],
            decreases self.sessions.len() - i,
        {
            let ghost before = self.sessions@;
            self.sessions[i].receiver.clear();
            self.sessions[i].recv_clock_rate = None;
            self.sessions[i].known = Vec::new();
            proof {
                assert(self.sessions@ =~= before.update(i as int, self.sessions@[i as int]));
                assert forall|a: int, b: int| 0 <= a < b < self.sessions@.len() implies (
                #[trigger] self.sessions@[a]).id != (#[trigger] self.sessions@[b]).id by {
                    assert(before[a].id != before[b].id);
                }
                assert(before[i as int]@ == all[i as int]);
                assert(self.sessions@[i as int]@.known =~= Seq::<(u8, u32)>::empty());
                assert(self.sessions@[i as int]@ == stopped(all[i as int]));
                assert forall|j: int| i + 1 <= j < all.len() implies (
                #[trigger] self.sessions@[j])@ == all[j] by {
                    assert(self.sessions@[j] == before[j]);
                }
                assert forall|j: int| 0 <= j < i implies (#[trigger] self.sessions@[j])@ == stopped(
                    all[j],
                ) by {
                    assert(self.sessions@[j] == before[j]);
                }
            }
            i += 1;
        }
        self.sync_context = None;
        proof {
            assert(self@.sessions =~= all.map_values(|s: BinSessionView| stopped(s)));
        }
    }

    /// Asks for a pad of the kind. `name` is the name that the pad is to
    /// have, where the caller has a wish; it tells the session. Returns
    /// the id of the session that got the pad.
    #[verifier::rlimit(50)]
    pub fn request_pad(&mut self, kind: PadKind, name: Option<&str>) -> (r: Option<usize>)
        requires
            old(self).wf(),
        ensures
            final(self).wf(),
            match session_id_of(
                match name {
                    Some(n) => Some(n.spec_bytes()),
                    None => None,
                },
                pad_prefix(kind),
                old(self)@.max_session_id,
            ) {
                Some(id) if pad_granted(old(self)@.sessions, kind, id) => r == Some(id)
                    && final(self)@ == with_pad_given(
                    old(self)@,
                    kind,
                    id,
                    cname_of(final(self)@, id),
                ),
                _ => r is None && final(self)@ == old(self)@,
            },
    {
        let parsed = match kind {
            PadKind::RtpRecvSink => parse_session_id(name, "rtp_recv_sink_", self.max_session_id),
            PadKind::RtpSendSink => parse_session_id(name, "rtp_send_sink_", self.max_session_id),
            PadKind::RtcpRecvSink => parse_session_id(name, "rtcp_recv_sink_", self.max_session_id),
            PadKind::RtcpSendSrc => parse_session_id(name, "rtcp_send_src_", self.max_session_id),
        };
        let id = match parsed {
            Some(id) => id,
            None => { return None; },
        };
        let i = self.find(id);
        if i < self.sessions.len() {
            let pads = self.sessions[i].pads;
            let taken = match kind {
                PadKind::RtpRecvSink => pads.rtp_send_sink,
                PadKind::RtpSendSink => pads.rtp_send_sink,
                PadKind::RtcpRecvSink => pads.rtcp_recv_sink,
                PadKind::RtcpSendSrc => pads.rtcp_send_src,
            };
            if taken {
                return None;
            }
        } else {
            match kind {
                PadKind::RtpRecvSink | PadKind::RtpSendSink => {
                    let session = BinSession::new(id, &self.settings);
                    proof {
                        assert(self.sessions@.push(session).map_values(|s: BinSession| s@)
                            =~= self@.sessions.push(session@));
                    }
                    self.sessions.push(session);
                },
                _ => { return None; },
            }
        }
        let ghost all = self@.sessions;
        let ghost before = self.sessions@;
        match kind {
            PadKind::RtpRecvSink => {
                self.sessions[i].pads.rtp_recv_sink = true;
            },
            PadKind::RtpSendSink => {
                self.sessions[i].pads.rtp_send_sink = true;
            },
            PadKind::RtcpRecvSink => {
                self.sessions[i].pads.rtcp_recv_sink = true;
            },
            PadKind::RtcpSendSrc => {
                self.sessions[i].pads.rtcp_send_src = true;
            },
        }
        let next = if id < usize::MAX { id + 1 } else { id };
        if next > self.max_session_id {
            self.max_session_id = next;
        }
        proof {
            assert(self.sessions@ =~= before.update(i as int, self.sessions@[i as int]));
            assert forall|a: int, b: int| 0 <= a < b < self.sessions@.len() implies (
            #[trigger] self.sessions@[a]).id != (#[trigger] self.sessions@[b]).id by {
                assert(before[a].id != before[b].id);
            }
            assert(self@.sessions =~= all.update(
                i as int,
                BinSessionView { pads: with_pad(all[i as int].pads, kind, true), ..all[i as int] },
            ));
            let cname = all[i as int].receiver.session.cname;
            lemma_session_position(self@.sessions, id, i as int);
            assert(cname_of(self@, id) == cname);
            assert(self@ == with_pad_given(old(self)@, kind, id, cname));
        }
        Some(id)
    }

    /// Gives back the pad of the kind of the session `id`.
    #[verifier::rlimit(50)]
    pub fn release_pad(&mut self, id: usize, kind: PadKind)
        requires
            old(self).wf(),
        ensures
            final(self).wf(),
            final(self)@ == with_pad_released(old(self)@, id, kind),
    {
        let i = self.find(id);
        if i >= self.sessions.len() {
            return ;
        }
        let pads = self.sessions[i].pads;
        let there = match kind {
            PadKind::RtpRecvSink => pads.rtp_recv_sink,
            PadKind::RtpSendSink => pads.rtp_send_sink,
            PadKind::RtcpRecvSink => pads.rtcp_recv_sink,
            PadKind::RtcpSendSrc => pads.rtcp_send_src,
        };
        if !there {
            return ;
        }
        let ghost all = self@.sessions;
        let ghost before = self.sessions@;
        match kind {
            PadKind::RtpRecvSink => {
                self.sessions[i].pads.rtp_recv_sink = false;
                self.sessions[i].receiver.clear();
            },
            PadKind::RtpSendSink => {
                self.sessions[i].pads.rtp_send_sink = false;
            },
            PadKind::RtcpRecvSink => {
                self.sessions[i].pads.rtcp_recv_sink = false;
            },
            PadKind::RtcpSendSrc => {
                self.sessions[i].pads.rtcp_send_src = false;
            },
        }
        proof {
            assert(self.sessions@ =~= before.update(i as int, self.sessions@[i as int]));
            assert forall|a: int, b: int| 0 <= a < b < self.sessions@.len() implies (
            #[trigger] self.sessions@[a]).id != (#[trigger] self.sessions@[b]).id by {
                assert(before[a].id != before[b].id);
            }
        }
        let p = self.sessions[i].pads;
        if !p.rtp_recv_sink && !p.rtp_send_sink && !p.rtcp_recv_sink && !p.rtcp_send_src {
            let ghost mid = self.sessions@;
            self.sessions.remove(i);
            proof {
                assert(self@.sessions =~= all.remove(i as int));
                assert forall|a: int, b: int| 0 <= a < b < self.sessions@.len() implies (
                #[trigger] self.sessions@[a]).id != (#[trigger] self.sessions@[b]).id by {
                    let x = if a < i { a } else { a + 1 };
                    let y = if b < i { b } else { b + 1 };
                    assert(mid[x].id != mid[y].id);
                }
            }
        } else {
            proof {
                assert(self@.sessions =~= all.update(i as int, self.sessions@[i as int]@));
            }
        }
    }

    /// Takes in an RTP packet that the session `id` received from `from`.
    /// `arrival` is the arrival time of the packet on the timeline of
    /// presentation times and `now` the instant of the call, both in
    /// nanoseconds.
    #[verifier::rlimit(50)]
    pub fn receive_rtp(
        &mut self,
        id: usize,
        packet: &RtpPacket,
        from: Option<Address>,
        arrival: u64,
        now: u64,
    ) -> (r: Result<Received, EngineError>)
        requires
            old(self).wf(),
        ensures
            final(self).wf(),
            ({
                let i = session_position(old(self)@.sessions, id, 0);
                if i >= old(self)@.sessions.len() {
                    r == Err::<Received, EngineError>(EngineError::NoSession) && final(self)@ == old(self)@
                } else if old(self)@.sync is None {
                    r == Err::<Received, EngineError>(EngineError::NotStarted) && final(self)@
                        == old(self)@
                } else {
                    let t = rtp_taken(old(self)@, i, *packet, from, arrival, now);
                    &&& r is Ok
                    &&& final(self)@ == t.0
                    &&& r->Ok_0.pts == t.1
                    &&& r->Ok_0.ntp_time == t.2
                    &&& r->Ok_0.actions@ == t.3
                    &&& none_missing(t.3)
                }
            }),
    {
        let i = self.find(id);
        if i >= self.sessions.len() {
            return Err(EngineError::NoSession);
        }
        let mut ctx = match self.sync_context.take() {
            Some(ctx) => ctx,
            None => {
                return Err(EngineError::NotStarted);
            },
        };
        let ghost before = self.sessions@;
        let ghost views = old(self)@.sessions;
        proof {
            assert(before[i as int]@ == views[i as int]);
        }
        let told = contains_pair(&self.sessions[i].known, packet.payload_type, packet.ssrc);
        match self.sessions[i].recv_clock_rate {
            Some(rate) if !told => {
                ctx.set_clock_rate(packet.ssrc, rate);
                self.sessions[i].known.push((packet.payload_type, packet.ssrc));
            },
            _ => {},
        }
        let (pts, ntp_time) = ctx.calculate_pts(packet.ssrc, packet.timestamp, arrival);
        let actions = self.sessions[i].receiver.receive_rtp(packet, pts, from, now);
        self.sync_context = Some(ctx);
        proof {
            assert(self.sessions@ =~= before.update(i as int, self.sessions@[i as int]));
            lemma_touch(before, self.sessions@, i as int);
            assert(self@.sessions =~= rtp_taken(
                old(self)@,
                i as int,
                *packet,
                from,
                arrival,
                now,
            ).0.sessions);
        }
        Ok(Received { pts, ntp_time, actions })
    }

    /// Takes in an RTP packet that the session `id` is about to send, and
    /// tells whether it is to be sent.
    pub fn send_rtp(&mut self, id: usize, packet: &RtpPacket, now: u64) -> (r: Result<
        bool,
        EngineError,
    >)
        requires
            old(self).wf(),
        ensures
            final(self).wf(),
            ({
                let i = session_position(old(self)@.sessions, id, 0);
                if i >= old(self)@.sessions.len() {
                    r == Err::<bool, EngineError>(EngineError::NoSession) && final(self)@ == old(self)@
                } else {
                    let s = session_at(old(self)@, i);
                    &&& r == Ok::<bool, EngineError>(
                        send_replies_to(s, *packet, now).last() is Passthrough,
                    )
                    &&& final(self)@ == with_session(
                        old(self)@,
                        i,
                        session_after_send(s, *packet, now),
                    )
                }
            }),
    {
        let i = self.find(id);
        if i >= self.sessions.len() {
            return Err(EngineError::NoSession);
        }
        let ghost before = self.sessions@;
        proof {
            assert(before[i as int]@ == old(self)@.sessions[i as int]);
        }
        let replies = self.sessions[i].receiver.session_mut().handle_send_all(packet, now);
        proof {
            assert(self.sessions@ =~= before.update(i as int, self.sessions@[i as int]));
            lemma_touch(before, self.sessions@, i as int);
        }
        let last = replies[replies.len() - 1];
        Ok(
            match last {
                SendReply::Passthrough => true,
                _ => false,
            },
        )
    }

    /// Takes in a compound RTCP packet of `size` bytes that the session
    /// `id` received, tells the synchronisation context the canonical
    /// names and sender reports in it, and returns what else it asks of
    /// the caller.
    #[verifier::rlimit(50)]
    pub fn receive_rtcp(
        &mut self,
        id: usize,
        rtcp: &Vec<RtcpPacket>,
        size: usize,
        from: Option<Address>,
        now: u64,
        ntp_now: u64,
    ) -> (r: Result<Vec<RtcpRecvReply>, EngineError>)
        requires
            old(self).wf(),
        ensures
            final(self).wf(),
            ({
                let i = session_position(old(self)@.sessions, id, 0);
                if i >= old(self)@.sessions.len() {
                    r == Err::<Vec<RtcpRecvReply>, EngineError>(EngineError::NoSession) && final(self)@ == old(self)@
                } else if old(self)@.sync is None {
                    r == Err::<Vec<RtcpRecvReply>, EngineError>(EngineError::NotStarted) && final(self)@ == old(self)@
                } else {
                    let t = rtcp_taken(old(self)@, i, views(rtcp@), size, from, now, ntp_now);
                    &&& r is Ok
                    &&& notes(r->Ok_0@) == t.1
                    &&& final(self)@ == t.0
                }
            }),
    {
        let i = self.find(id);
        if i >= self.sessions.len() {
            return Err(EngineError::NoSession);
        }
        let mut ctx = match self.sync_context.take() {
            Some(ctx) => ctx,
            None => {
                return Err(EngineError::NotStarted);
            },
        };
        let ghost before = self.sessions@;
        proof {
            assert(before[i as int]@ == old(self)@.sessions[i as int]);
        }
        let replies = self.sessions[i].receiver.session_mut().handle_rtcp_recv(
            rtcp,
            size,
            from,
            now,
            ntp_now,
        );
        proof {
            crate::session::lemma_rtcp_keeps_held(
                session_at(old(self)@, i as int),
                views(rtcp@),
                from,
                now,
                ntp_now,
            );
            assert(self.sessions@ =~= before.update(i as int, self.sessions@[i as int]));
            lemma_touch(before, self.sessions@, i as int);
        }
        let ghost start = ctx.streams();
        let mut k: usize = 0;
        proof {
            assert(notes(replies@).take(0) =~= Seq::<RtcpNote>::empty());
        }
        while k < replies.len()
            invariant
                k <= replies.len(),
                ctx.wf(),
                ctx.mode() == old(self)@.sync->0.mode,
                ctx.streams() == synced(start, notes(replies@).take(k as int)),
            decreases replies.len() - k,
        {
            proof {
                assert(notes(replies@).take(k + 1).drop_last() =~= notes(replies@).take(k as int));
                assert(notes(replies@).take(k + 1).last() == replies@[k as int]@);
            }
            match &replies[k] {
                RtcpRecvReply::NewCName((cname, ssrc)) => {
                    ctx.associate(*ssrc, cname.as_str());
                },
                RtcpRecvReply::NewRtpNtp((ssrc, rtp, ntp)) => {
                    ctx.add_sender_report(*ssrc, *rtp, *ntp);
                },
                _ => {},
            }
            k += 1;
        }
        proof {
            assert(notes(replies@).take(replies@.len() as int) =~= notes(replies@));
        }
        self.sync_context = Some(ctx);
        Ok(replies)
    }

    /// Takes in the bytes of a compound RTCP packet that the session `id`
    /// received. Bytes that are no compound RTCP packet are dropped: they
    /// change nothing and ask nothing of the caller, whether or not the
    /// engine has been started.
    pub fn receive_rtcp_bytes(
        &mut self,
        id: usize,
        data: &[u8],
        from: Option<Address>,
        now: u64,
        ntp_now: u64,
    ) -> (r: Result<Vec<RtcpRecvReply>, EngineError>)
        requires
            old(self).wf(),
        ensures
            final(self).wf(),
            ({
                let i = session_position(old(self)@.sessions, id, 0);
                if i >= old(self)@.sessions.len() {
                    r == Err::<Vec<RtcpRecvReply>, EngineError>(EngineError::NoSession) && final(self)@ == old(self)@
                } else if !is_compound(data@) {
                    r is Ok && r->Ok_0@.len() == 0 && final(self)@ == old(self)@
                } else if old(self)@.sync is None {
                    r == Err::<Vec<RtcpRecvReply>, EngineError>(EngineError::NotStarted) && final(self)@ == old(self)@
                } else {
                    let t = rtcp_taken(
                        old(self)@,
                        i,
                        packets_from(data@, 0),
                        data@.len() as usize,
                        from,
                        now,
                        ntp_now,
                    );
                    &&& r is Ok
                    &&& notes(r->Ok_0@) == t.1
                    &&& final(self)@ == t.0
                }
            }),
    {
        if !self.has_session(id) {
            return Err(EngineError::NoSession);
        }
        match parse_rtcp(data) {
            Some(packets) => self.receive_rtcp(id, &packets, data.len(), from, now, ntp_now),
            None => Ok(Vec::new()),
        }
    }

    /// Takes in a datagram that the session `id` received where RTP is
    /// expected: an RTP packet is received as such; RTCP that came along
    /// the same path is received as RTCP; anything else is dropped.
    pub fn receive(
        &mut self,
        id: usize,
        data: &[u8],
        from: Option<Address>,
        arrival: u64,
        now: u64,
        ntp_now: u64,
    ) -> (r: Result<Ingress, EngineError>)
        requires
            old(self).wf(),
        ensures
            final(self).wf(),
            ({
                let i = session_position(old(self)@.sessions, id, 0);
                if i >= old(self)@.sessions.len() {
                    r matches Err(EngineError::NoSession) && final(self)@ == old(self)@
                } else {
                    match classified(data@, crate::packet::starts_with_rtcp(data@)) {
                        Datagram::Malformed => r matches Ok(Ingress::Malformed) && final(self)@
                            == old(self)@,
                        _ if old(self)@.sync is None => r matches Err(EngineError::NotStarted)
                            && final(self)@ == old(self)@,
                        Datagram::Rtp(p) => {
                            let t = rtp_taken(old(self)@, i, p, from, arrival, now);
                            &&& r matches Ok(Ingress::Rtp(received))
                            &&& final(self)@ == t.0
                            &&& r->Ok_0->Rtp_0.pts == t.1
                            &&& r->Ok_0->Rtp_0.ntp_time == t.2
                            &&& r->Ok_0->Rtp_0.actions@ == t.3
                        },
                        Datagram::Rtcp => {
                            let t = rtcp_taken(
                                old(self)@,
                                i,
                                packets_from(data@, 0),
                                data@.len() as usize,
                                from,
                                now,
                                ntp_now,
                            );
                            &&& r matches Ok(Ingress::Rtcp(replies))
                            &&& notes(r->Ok_0->Rtcp_0@) == t.1
                            &&& final(self)@ == t.0
                        },
                    }
                }
            }),
    {
        if !self.has_session(id) {
            return Err(EngineError::NoSession);
        }
        match classify(data) {
            Datagram::Rtp(packet) => match self.receive_rtp(id, &packet, from, arrival, now) {
                Ok(received) => Ok(Ingress::Rtp(received)),
                Err(e) => Err(e),
            },
            Datagram::Rtcp => match self.receive_rtcp_bytes(id, data, from, now, ntp_now) {
                Ok(replies) => Ok(Ingress::Rtcp(replies)),
                Err(e) => Err(e),
            },
            Datagram::Malformed => Ok(Ingress::Malformed),
        }
    }

    /// Asks the jitter buffers of the session `id` for the next entry at `now`.
    pub fn poll_jitterbuffers(&mut self, id: usize, now: u64) -> (r: Result<StreamPoll, EngineError>)
        requires
            old(self).wf(),
        ensures
            final(self).wf(),
            ({
                let i = session_position(old(self)@.sessions, id, 0);
                if i >= old(self)@.sessions.len() {
                    r == Err::<StreamPoll, EngineError>(EngineError::NoSession) && final(self)@
                        == old(self)@
                } else {
                    let t = streams_polled(old(self)@.sessions[i].receiver.streams, now);
                    &&& r == Ok::<StreamPoll, EngineError>(t.1)
                    &&& final(self)@ == with_receiver(
                        old(self)@,
                        i,
                        ReceiverView { streams: t.0, ..old(self)@.sessions[i].receiver },
                    )
                }
            }),
    {
        let i = self.find(id);
        if i >= self.sessions.len() {
            return Err(EngineError::NoSession);
        }
        let ghost before = self.sessions@;
        proof {
            assert(before[i as int]@ == old(self)@.sessions[i as int]);
        }
        let r = self.sessions[i].receiver.poll(now);
        proof {
            assert(self.sessions@ =~= before.update(i as int, self.sessions@[i as int]));
            lemma_touch(before, self.sessions@, i as int);
        }
        Ok(r)
    }

    /// Reserves a place for a serialized item in each jitter buffer of
    /// the session `id`, and tells the stream and the id of each place.
    pub fn queue_serialized_item(&mut self, id: usize) -> (r: Result<Vec<(usize, usize)>, EngineError>)
        requires
            old(self).wf(),
        ensures
            final(self).wf(),
            ({
                let i = session_position(old(self)@.sessions, id, 0);
                if i >= old(self)@.sessions.len() {
                    r == Err::<Vec<(usize, usize)>, EngineError>(EngineError::NoSession) && final(self)@ == old(self)@
                } else {
                    let t = serialized(old(self)@.sessions[i].receiver.streams);
                    &&& r is Ok
                    &&& r->Ok_0@ == t.1
                    &&& final(self)@ == with_receiver(
                        old(self)@,
                        i,
                        ReceiverView { streams: t.0, ..old(self)@.sessions[i].receiver },
                    )
                }
            }),
    {
        let i = self.find(id);
        if i >= self.sessions.len() {
            return Err(EngineError::NoSession);
        }
        let ghost before = self.sessions@;
        proof {
            assert(before[i as int]@ == old(self)@.sessions[i as int]);
        }
        let r = self.sessions[i].receiver.queue_serialized_item();
        proof {
            assert(self.sessions@ =~= before.update(i as int, self.sessions@[i as int]));
            lemma_touch(before, self.sessions@, i as int);
        }
        Ok(r)
    }

    /// Reserves a place for a serialized item in the jitter buffer of the
    /// stream at `stream` of the session `id`, and tells its id; `None`
    /// where there is no such stream or its jitter buffer takes no more
    /// entries.
    pub fn queue_serialized_item_in(&mut self, id: usize, stream: usize) -> (r: Result<
        Option<usize>,
        EngineError,
    >)
        requires
            old(self).wf(),
        ensures
            final(self).wf(),
            ({
                let i = session_position(old(self)@.sessions, id, 0);
                if i >= old(self)@.sessions.len() {
                    r == Err::<Option<usize>, EngineError>(EngineError::NoSession) && final(self)@
                        == old(self)@
                } else {
                    let t = serialized_in(old(self)@.sessions[i].receiver.streams, stream);
                    &&& r == Ok::<Option<usize>, EngineError>(t.1)
                    &&& final(self)@ == with_receiver(
                        old(self)@,
                        i,
                        ReceiverView { streams: t.0, ..old(self)@.sessions[i].receiver },
                    )
                }
            }),
    {
        let i = self.find(id);
        if i >= self.sessions.len() {
            return Err(EngineError::NoSession);
        }
        let ghost before = self.sessions@;
        proof {
            assert(before[i as int]@ == old(self)@.sessions[i as int]);
        }
        let r = self.sessions[i].receiver.queue_serialized_item_in(stream);
        proof {
            assert(self.sessions@ =~= before.update(i as int, self.sessions@[i as int]));
            lemma_touch(before, self.sessions@, i as int);
        }
        Ok(r)
    }

    /// Notes whether the output of the stream at `stream` of the session
    /// `id` takes packets.
    pub fn set_active(&mut self, id: usize, stream: usize, active: bool) -> (r: Result<
        (),
        EngineError,
    >)
        requires
            old(self).wf(),
        ensures
            final(self).wf(),
            ({
                let i = session_position(old(self)@.sessions, id, 0);
                if i >= old(self)@.sessions.len() {
                    r == Err::<(), EngineError>(EngineError::NoSession) && final(self)@ == old(self)@
                } else {
                    let streams = old(self)@.sessions[i].receiver.streams;
                    &&& r is Ok
                    &&& final(self)@ == with_receiver(
                        old(self)@,
                        i,
                        ReceiverView {
                            streams: if stream < streams.len() {
                                streams.update(
                                    stream as int,
                                    RecvStreamView { active, ..streams[stream as int] },
                                )
                            } else {
                                streams
                            },
                            ..old(self)@.sessions[i].receiver
                        },
                    )
                }
            }),
    {
        let i = self.find(id);
        if i >= self.sessions.len() {
            return Err(EngineError::NoSession);
        }
        let ghost before = self.sessions@;
        proof {
            assert(before[i as int]@ == old(self)@.sessions[i as int]);
        }
        self.sessions[i].receiver.set_active(stream, active);
        proof {
            assert(self.sessions@ =~= before.update(i as int, self.sessions@[i as int]));
            lemma_touch(before, self.sessions@, i as int);
        }
        Ok(())
    }

    /// Takes note at `now` that the streams that the session `id` sends
    /// have ended. Tells whether the goodbye of the session was scheduled.
    pub fn handle_send_eos(&mut self, id: usize, now: u64) -> (r: Result<bool, EngineError>)
        requires
            old(self).wf(),
        ensures
            final(self).wf(),
            ({
                let i = session_position(old(self)@.sessions, id, 0);
                if i >= old(self)@.sessions.len() {
                    r == Err::<bool, EngineError>(EngineError::NoSession) && final(self)@ == old(self)@
                } else {
                    let s = session_at(old(self)@, i);
                    &&& r == Ok::<bool, EngineError>(
                        !crate::session::session_held(s.sources, s.internal_ssrc, false),
                    )
                    &&& final(self)@ == with_session(old(self)@, i, send_ended(s, now))
                }
            }),
    {
        let i = self.find(id);
        if i >= self.sessions.len() {
            return Err(EngineError::NoSession);
        }
        let ghost before = self.sessions@;
        proof {
            assert(before[i as int]@ == old(self)@.sessions[i as int]);
        }
        let r = self.sessions[i].receiver.session_mut().handle_send_eos(now);
        proof {
            assert(self.sessions@ =~= before.update(i as int, self.sessions@[i as int]));
            lemma_touch(before, self.sessions@, i as int);
        }
        Ok(r)
    }

    /// Takes note at `now` that the streams that the session `id`
    /// receives have ended. Tells whether the goodbye of the session was
    /// scheduled.
    pub fn handle_recv_eos(&mut self, id: usize, now: u64) -> (r: Result<bool, EngineError>)
        requires
            old(self).wf(),
        ensures
            final(self).wf(),
            ({
                let i = session_position(old(self)@.sessions, id, 0);
                if i >= old(self)@.sessions.len() {
                    r == Err::<bool, EngineError>(EngineError::NoSession) && final(self)@ == old(self)@
                } else {
                    let s = session_at(old(self)@, i);
                    &&& r == Ok::<bool, EngineError>(
                        !crate::session::session_held(s.sources, s.internal_ssrc, true),
                    )
                    &&& final(self)@ == with_session(old(self)@, i, recv_ended(s, now))
                }
            }),
    {
        let i = self.find(id);
        if i >= self.sessions.len() {
            return Err(EngineError::NoSession);
        }
        let ghost before = self.sessions@;
        proof {
            assert(before[i as int]@ == old(self)@.sessions[i as int]);
        }
        let r = self.sessions[i].receiver.session_mut().handle_recv_eos(now);
        proof {
            assert(self.sessions@ =~= before.update(i as int, self.sessions@[i as int]));
            lemma_touch(before, self.sessions@, i as int);
        }
        Ok(r)
    }

    /// Asks the remote sender `ssrc` of the session `id` for a key frame.
    pub fn request_remote_key_unit(
        &mut self,
        id: usize,
        now: u64,
        kind: KeyUnitRequestType,
        ssrc: u32,
    ) -> (r: Result<Vec<RequestRemoteKeyUnitReply>, EngineError>)
        requires
            old(self).wf(),
        ensures
            final(self).wf(),
            ({
                let i = session_position(old(self)@.sessions, id, 0);
                if i >= old(self)@.sessions.len() {
                    r == Err::<Vec<RequestRemoteKeyUnitReply>, EngineError>(EngineError::NoSession)
                        && final(self)@ == old(self)@
                } else {
                    &&& r is Ok
                    &&& r->Ok_0@ == seq![RequestRemoteKeyUnitReply::TimerReconsideration]
                    &&& final(self)@ == with_session(
                        old(self)@,
                        i,
                        key_unit_requested(session_at(old(self)@, i), now, kind, ssrc),
                    )
                }
            }),
    {
        let i = self.find(id);
        if i >= self.sessions.len() {
            return Err(EngineError::NoSession);
        }
        let ghost before = self.sessions@;
        proof {
            assert(before[i as int]@ == old(self)@.sessions[i as int]);
        }
        let r = self.sessions[i].receiver.session_mut().request_remote_key_unit(now, kind, ssrc);
        proof {
            assert(self.sessions@ =~= before.update(i as int, self.sessions@[i as int]));
            lemma_touch(before, self.sessions@, i as int);
        }
        Ok(r)
    }

    /// Asks for the next RTCP packet at `now` (nanoseconds; `ntp_now` is
    /// the same instant as a 64-bit NTP timestamp). `rnd` picks the point
    /// in the interval for every deadline that is set, and becomes the
    /// internal ssrc of the session that sends where it needs one.
    ///
    /// Every session is asked for its deadline. Where the earliest of
    /// them has come, the packet of that session is made; else the answer
    /// is the earliest deadline, or where there is none, a wait of half
    /// the shortest interval between reports.
    #[verifier::rlimit(50)]
    pub fn poll_rtcp_with(&mut self, now: u64, ntp_now: u64, rnd: u32) -> (r: RtcpPoll)
        requires
            old(self).wf(),
        ensures
            final(self).wf(),
            final(self)@ == rtcp_polled(old(self)@, now, ntp_now, rnd).0,
            r@ == rtcp_polled(old(self)@, now, ntp_now, rnd).1,
    {
        let ghost views = self@.sessions;
        let ghost ready = all_armed(views, now, rnd);
        let mut best: Option<(usize, u64)> = None;
        let mut i: usize = 0;
        while i < self.sessions.len()
            invariant
                i <= self.sessions.len(),
                self.wf(),
                views == old(self)@.sessions,
                ready == all_armed(views, now, rnd),
                self.sessions@.len() == views.len(),
                self@ == (EngineView { sessions: self@.sessions, ..old(self)@ }),
                forall|j: int| 0 <= j < i ==> (#[trigger] self.sessions@[j])@ == ready[j],
                forall|j: int| i <= j < views.len() ==> (#[trigger] self.sessions@[j])@ == views[j],
                match best {
                    Some((k, t)) => first_deadline(ready.take(i as int)) == Some((k as int, t)),
                    None => first_deadline(ready.take(i as int)) is None,
                },
            decreases self.sessions.len() - i,
        {
            let ghost before = self.sessions@;
            proof {
                assert(ready.take(i + 1).drop_last() =~= ready.take(i as int));
                assert(ready.take(i + 1).last() == ready[i as int]);
            }
            let d = self.sessions[i].receiver.session_mut().poll_rtcp_send_timeout_with(now, rnd);
            proof {
                assert(self.sessions@ =~= before.update(i as int, self.sessions@[i as int]));
                lemma_touch(before, self.sessions@, i as int);
                assert(self.sessions@[i as int]@ == ready[i as int]);
                assert forall|j: int| 0 <= j < i implies (#[trigger] self.sessions@[j])@
                    == ready[j] by {
                    assert(self.sessions@[j] == before[j]);
                }
                assert forall|j: int| i + 1 <= j < views.len() implies (
                #[trigger] self.sessions@[j])@ == views[j] by {
                    assert(self.sessions@[j] == before[j]);
                }
            }
            match d {
                Some(t) => {
                    best = match best {
                        Some((k, b)) if b <= t => best,
                        _ => Some((i, t)),
                    };
                },
                None => {},
            }
            i += 1;
        }
        proof {
            assert(ready.take(ready.len() as int) =~= ready);
            assert(self@.sessions =~= ready);
            lemma_first_deadline(ready);
        }
        match best {
            Some((k, t)) => {
                if t <= now {
                    let ghost before = self.sessions@;
                    let id = self.sessions[k].id;
                    let data = self.sessions[k].receiver.session_mut().poll_rtcp_send_with(
                        now,
                        ntp_now,
                        rnd,
                    );
                    proof {
                        assert(self.sessions@ =~= before.update(k as int, self.sessions@[k as int]));
                        lemma_touch(before, self.sessions@, k as int);
                    }
                    match data {
                        Some(data) => RtcpPoll::Send { data, session: id },
                        None => RtcpPoll::Wait(t),
                    }
                } else {
                    RtcpPoll::Wait(t)
                }
            },
            None => RtcpPoll::Wait(
                if RTCP_MIN_REPORT_INTERVAL / 2 > u64::MAX - now {
                    u64::MAX
                } else {
                    now + RTCP_MIN_REPORT_INTERVAL / 2
                },
            ),
        }
    }

    /// Asks for the next RTCP packet at `now`, with a number drawn at
    /// random: the outcome is that of `poll_rtcp_with` for some number.
    pub fn poll_rtcp(&mut self, now: u64, ntp_now: u64) -> (r: RtcpPoll)
        requires
            old(self).wf(),
        ensures
            final(self).wf(),
            exists|rnd: u32|
                final(self)@ == (#[trigger] rtcp_polled(old(self)@, now, ntp_now, rnd)).0 && r@
                    == rtcp_polled(old(self)@, now, ntp_now, rnd).1,
    {
        let rnd = crate::session::random_u32();
        self.poll_rtcp_with(now, ntp_now, rnd)
    }

    /// Notes what was negotiated for the RTP that the session `id`
    /// receives: the clock rate, which the synchronisation context is
    /// told with the first packet of each stream, and with a payload type
    /// the clock rate of that payload type.
    #[verifier::rlimit(50)]
    pub fn set_recv_caps(&mut self, id: usize, clock_rate: Option<i32>, payload: Option<i32>) -> (r:
        Result<(), EngineError>)
        requires
            old(self).wf(),
        ensures
            final(self).wf(),
            ({
                let i = session_position(old(self)@.sessions, id, 0);
                if i >= old(self)@.sessions.len() {
                    r == Err::<(), EngineError>(EngineError::NoSession) && final(self)@ == old(self)@
                } else {
                    let s = session_at(old(self)@, i);
                    let rate: Option<u32> = match clock_rate {
                        Some(c) if c > 0 => Some(c as u32),
                        _ => None,
                    };
                    let v = with_session(old(self)@, i, with_pt_clock_rate(s, clock_rate, payload));
                    &&& r is Ok
                    &&& final(self)@ == (EngineView {
                        sessions: v.sessions.update(
                            i,
                            BinSessionView { recv_clock_rate: rate, ..v.sessions[i] },
                        ),
                        ..v
                    })
                }
            }),
    {
        let i = self.find(id);
        if i >= self.sessions.len() {
            return Err(EngineError::NoSession);
        }
        let ghost before = self.sessions@;
        proof {
            assert(before[i as int]@ == old(self)@.sessions[i as int]);
        }
        self.sessions[i].recv_clock_rate = clock_rate_from_caps(clock_rate);
        match pt_clock_rate_from_caps(clock_rate, payload) {
            Some((pt, rate)) => {
                self.sessions[i].receiver.session_mut().set_pt_clock_rate(pt, rate);
            },
            None => {},
        }
        proof {
            assert(self.sessions@ =~= before.update(i as int, self.sessions@[i as int]));
            lemma_touch(before, self.sessions@, i as int);
            let v = with_session(
                old(self)@,
                i as int,
                with_pt_clock_rate(session_at(old(self)@, i as int), clock_rate, payload),
            );
            assert(self@.sessions =~= v.sessions.update(
                i as int,
                BinSessionView {
                    recv_clock_rate: self.sessions@[i as int].recv_clock_rate,
                    ..v.sessions[i as int]
                },
            ));
        }
        Ok(())
    }

    /// Notes what was negotiated for the RTP that the session `id` sends:
    /// with a payload type the clock rate of that payload type.
    pub fn set_send_caps(&mut self, id: usize, clock_rate: Option<i32>, payload: Option<i32>) -> (r:
        Result<(), EngineError>)
        requires
            old(self).wf(),
        ensures
            final(self).wf(),
            ({
                let i = session_position(old(self)@.sessions, id, 0);
                if i >= old(self)@.sessions.len() {
                    r == Err::<(), EngineError>(EngineError::NoSession) && final(self)@ == old(self)@
                } else {
                    &&& r is Ok
                    &&& final(self)@ == with_session(
                        old(self)@,
                        i,
                        with_pt_clock_rate(session_at(old(self)@, i), clock_rate, payload),
                    )
                }
            }),
    {
        let i = self.find(id);
        if i >= self.sessions.len() {
            return Err(EngineError::NoSession);
        }
        let ghost before = self.sessions@;
        proof {
            assert(before[i as int]@ == old(self)@.sessions[i as int]);
        }
        match pt_clock_rate_from_caps(clock_rate, payload) {
            Some((pt, rate)) => {
                self.sessions[i].receiver.session_mut().set_pt_clock_rate(pt, rate);
            },
            None => {},
        }
        proof {
            assert(self.sessions@ =~= before.update(i as int, self.sessions@[i as int]));
            lemma_touch(before, self.sessions@, i as int);
            assert(self@.sessions =~= with_session(
                old(self)@,
                i as int,
                with_pt_clock_rate(session_at(old(self)@, i as int), clock_rate, payload),
            ).sessions);
        }
        Ok(())
    }

    /// The receiving side of the session `id`, with its session.
    pub fn receiver(&self, id: usize) -> (r: Option<&Receiver>)
        ensures
            ({
                let i = session_position(self@.sessions, id, 0);
                if i >= self@.sessions.len() {
                    r is None
                } else {
                    r is Some && r->0@ == self@.sessions[i].receiver
                }
            }),
    {
        let i = self.find(id);
        if i >= self.sessions.len() {
            None
        } else {
            proof {
                assert(self.sessions@[i as int]@ == self@.sessions[i as int]);
            }
            Some(&self.sessions[i].receiver)
        }
    }

    /// The pads of the session `id`.
    pub fn pads(&self, id: usize) -> (r: Option<Pads>)
        ensures
            ({
                let i = session_position(self@.sessions, id, 0);
                if i >= self@.sessions.len() {
                    r is None
                } else {
                    r == Some(self@.sessions[i].pads)
                }
            }),
    {
        let i = self.find(id);
        if i >= self.sessions.len() {
            None
        } else {
            proof {
                assert(self.sessions@[i as int]@ == self@.sessions[i as int]);
            }
            Some(self.sessions[i].pads)
        }
    }
}

/// Whether the list holds the pair.
fn contains_pair(v: &Vec<(u8, u32)>, pt: u8, ssrc: u32) -> (r: bool)
    ensures
        r == v@.contains((pt, ssrc)),
{
    let mut i: usize = 0;
    while i < v.len()
        invariant
            i <= v.len(),
            forall|j: int| 0 <= j < i ==> v@[j] != (pt, ssrc),
        decreases v.len() - i,
    {
        if v[i].0 == pt && v[i].1 == ssrc {
            return true;
        }
        i += 1;
    }
    false
}

} // verus!

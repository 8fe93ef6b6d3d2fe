//! One RTP session: its table of sources, the handling of the RTP and RTCP
//! packets that go through it, and the schedule of the RTCP packets it sends.

use vstd::prelude::*;
use vstd::string::StringExecFns;
use crate::packet::{
    views, Address, ReportBlock, RtcpPacket, RtcpPacketView, RtpPacket, SenderInfo, PSFB_FIR,
    PSFB_PLI, SDES_CNAME,
};
use crate::rtcp::{
    blocks_fit, bye_bytes, cname_bytes, fir_bytes, pli_bytes, receiver_report_bytes,
    sender_report_bytes, write_bye, write_cname, write_fir, write_pli, write_receiver_report,
    write_sender_report, MAX_REPORT_BLOCKS,
};
use crate::source::{
    lemma_receive_step_valid, new_source, receive_step, report_block_of, reported, send_step,
    sender_info_of, valid, Source, SourceState, Verdict,
};

verus! {

/// The shortest time between two regular RTCP reports, in nanoseconds,
/// unless configured otherwise: five seconds.
pub const RTCP_MIN_REPORT_INTERVAL: u64 = 5_000_000_000;

/// The share of the session's bandwidth that RTCP may use, in bytes per
/// second, unless configured otherwise.
pub const DEFAULT_RTCP_BANDWIDTH: u64 = 400;

/// The size that an RTCP packet is taken to have before one was seen, in bytes.
pub const INITIAL_RTCP_SIZE: u64 = 100;

/// The RTP profile of a session.
#[derive(Debug, Clone, Copy, PartialEq, Eq, Structural)]
pub enum RtpProfile {
    /// RFC 3551.
    Avp,
    /// RFC 4585: with early feedback.
    Avpf,
}

impl Default for RtpProfile {
    fn default() -> (r: Self)
        ensures
            r == RtpProfile::Avp,
    {
        RtpProfile::Avp
    }
}

/// What the caller does with a received RTP packet. The replies to one
/// packet come one per call: the caller hands the same packet in again
/// until it gets `Hold`, `Ignore` or `Passthrough`.
#[derive(Debug, Clone, Copy, PartialEq, Eq, Structural)]
pub enum RecvReply {
    /// The ssrc of the packet is one of this engine's own.
    SsrcCollision(u32),
    /// The ssrc was not known before; with the payload type of the packet.
    NewSsrc(u32, u8),
    /// Keep the packet under this id until its fate is told.
    Hold(usize),
    /// Drop the packet held under this id.
    Drop(usize),
    /// Forward the packet held under this id.
    Forward(usize),
    /// Drop the packet.
    Ignore,
    /// Forward the packet.
    Passthrough,
}

/// What the caller does with an RTP packet that it is about to send. The
/// replies to one packet come one per call: the caller hands the same
/// packet in again until it gets `Drop` or `Passthrough`.
#[derive(Debug, Clone, Copy, PartialEq, Eq, Structural)]
pub enum SendReply {
    /// The ssrc of the packet is that of a remote source.
    SsrcCollision(u32),
    /// The ssrc was not known before; with the payload type of the packet.
    NewSsrc(u32, u8),
    /// Do not send the packet.
    Drop,
    /// Send the packet.
    Passthrough,
}

/// What a received compound RTCP packet asks of the caller.
#[derive(Debug, PartialEq, Eq)]
pub enum RtcpRecvReply {
    /// The ssrc was not known before.
    NewSsrc(u32),
    /// The ssrc of a report is one of this engine's own.
    SsrcCollision(u32),
    /// The time of the next RTCP packet may have changed: ask for it again.
    TimerReconsideration,
    /// A receiver asks for a key frame of the sources of the list.
    RequestKeyUnit { ssrcs: Vec<u32>, fir: bool },
    /// A source has this canonical name.
    NewCName((String, u32)),
    /// For a source (first), this RTP timestamp (second) and this NTP
    /// timestamp (third) name the same instant.
    NewRtpNtp((u32, u32, u64)),
}

/// What a request for a key frame asks of the caller.
#[derive(Debug, Clone, Copy, PartialEq, Eq, Structural)]
pub enum RequestRemoteKeyUnitReply {
    /// The time of the next RTCP packet may have changed: ask for it again.
    TimerReconsideration,
}

/// How a key frame is asked for.
#[derive(Debug, Clone, Copy, PartialEq, Eq, Structural)]
pub enum KeyUnitRequestType {
    /// Full intra request; the number counts the requests of the caller.
    Fir(u32),
    /// Picture loss indication.
    Pli,
}

/// A packet that the caller holds for a source that is not valid yet.
#[derive(Debug, Clone, Copy, PartialEq, Eq, Structural)]
pub struct Held {
    pub ssrc: u32,
    pub id: usize,
}

/// A report block that was received.
#[derive(Debug, Clone, Copy, PartialEq, Eq, Structural)]
pub struct ReceivedRb {
    pub rb: ReportBlock,
    /// Instant of arrival.
    pub receive_time: u64,
    /// NTP time of arrival.
    pub receive_ntp_time: u64,
}

/// A received report block, with the source that sent it.
#[derive(Debug, Clone, Copy, PartialEq, Eq, Structural)]
pub struct Report {
    /// The source that sent the block.
    pub from: u32,
    pub block: ReceivedRb,
}

/// A key frame that is to be asked of a remote sender.
#[derive(Debug, Clone, Copy, PartialEq, Eq, Structural)]
pub struct KeyUnitRequest {
    pub ssrc: u32,
    pub kind: KeyUnitRequestType,
}

/// The state of a session as contracts speak of it.
pub struct SessionView {
    /// The sources, in the order in which they became known.
    pub sources: Seq<Source>,
    /// Payload types with their clock rates, the latest first.
    pub clock_rates: Seq<(u8, u32)>,
    /// The packets that the caller holds.
    pub held: Seq<Held>,
    /// The id that the next held packet gets.
    pub next_hold_id: usize,
    /// Replies still owed for the received packet in hand.
    pub recv_replies: Seq<RecvReply>,
    /// Replies still owed for the sent packet in hand.
    pub send_replies: Seq<SendReply>,
    /// The latest report block about each local source from each reporter.
    pub reports: Seq<Report>,
    /// Key frames to ask for with the next RTCP packet.
    pub requests: Seq<KeyUnitRequest>,
    pub min_rtcp_interval: u64,
    pub profile: RtpProfile,
    pub reduced_size_rtcp: bool,
    /// Bytes per second that RTCP may use.
    pub rtcp_bandwidth: u64,
    /// The ssrc under which the session reports when it sends nothing.
    pub internal_ssrc: Option<u32>,
    /// The canonical name of this participant.
    pub cname: Seq<char>,
    /// The reason of the goodbye that is to be sent.
    pub bye_reason: Option<Seq<char>>,
    /// When the next RTCP packet is due.
    pub next_rtcp_send: Option<u64>,
    /// When the last RTCP packet was sent.
    pub last_rtcp_send: Option<u64>,
    /// Whether the packet that is due is an early one, for feedback.
    pub early: bool,
    /// Smoothed size of the RTCP packets sent and received, in bytes.
    pub avg_rtcp_size: u64,
    /// Whether an RTCP packet was sent.
    pub sent_rtcp: bool,
}

/// Whether the session can still be configured: the schedule of its RTCP
/// packets has not begun.
pub open spec fn configurable(v: SessionView) -> bool {
    v.last_rtcp_send is None
}

/// The session after something changed that the time of the next RTCP
/// packet depends on: a regular deadline is set aside, so that it is
/// worked out again; an early one stays.
pub open spec fn reconsidered(v: SessionView) -> SessionView {
    SessionView {
        next_rtcp_send: if v.early {
            v.next_rtcp_send
        } else {
            None
        },
        ..v
    }
}

/// The index of the source with `ssrc` at or behind `from`, or the length
/// of the table where there is none.
pub open spec fn position_from(sources: Seq<Source>, ssrc: u32, from: int) -> int
    decreases sources.len() - from,
{
    if from < 0 || from >= sources.len() {
        sources.len() as int
    } else if sources[from].ssrc == ssrc {
        from
    } else {
        position_from(sources, ssrc, from + 1)
    }
}

/// The index of the source with `ssrc`, or the length of the table where
/// there is none.
pub open spec fn position(sources: Seq<Source>, ssrc: u32) -> int {
    position_from(sources, ssrc, 0)
}

/// Whether the table holds a source with `ssrc`.
pub open spec fn known(sources: Seq<Source>, ssrc: u32) -> bool {
    position(sources, ssrc) < sources.len()
}

/// No two sources of the table have the same ssrc.
pub open spec fn distinct(sources: Seq<Source>) -> bool {
    forall|i: int, j: int|
        0 <= i < j < sources.len() ==> (#[trigger] sources[i]).ssrc != (#[trigger] sources[j]).ssrc
}

/// The clock rate of a payload type, where it was set.
pub open spec fn clock_rate_of(rates: Seq<(u8, u32)>, pt: u8) -> Option<u32>
    decreases rates.len(),
{
    if rates.len() == 0 {
        None
    } else if rates[0].0 == pt {
        Some(rates[0].1)
    } else {
        clock_rate_of(rates.skip(1), pt)
    }
}

/// Whether a reply ends the handling of a received packet.
pub open spec fn ends_recv(r: RecvReply) -> bool {
    r is Hold || r is Ignore || r is Passthrough
}

/// Whether a reply ends the handling of a sent packet.
pub open spec fn ends_send(r: SendReply) -> bool {
    r is Drop || r is Passthrough
}

/// The replies to one received packet: the last one ends the handling, and
/// no other does.
pub open spec fn recv_replies_end(r: Seq<RecvReply>) -> bool {
    forall|i: int| 0 <= i < r.len() ==> (ends_recv(#[trigger] r[i]) <==> i == r.len() - 1)
}

/// The replies to one sent packet: the last one ends the handling, and no
/// other does.
pub open spec fn send_replies_end(r: Seq<SendReply>) -> bool {
    forall|i: int| 0 <= i < r.len() ==> (ends_send(#[trigger] r[i]) <==> i == r.len() - 1)
}

/// The ids of the held packets grow from each to the next, and all are
/// below `next`: no two packets are held under one id.
pub open spec fn ids_grow(held: Seq<Held>, next: usize) -> bool {
    &&& forall|i: int, j: int| 0 <= i < j < held.len() ==> (#[trigger] held[i]).id < (#[trigger] held[j]).id
    &&& forall|i: int| 0 <= i < held.len() ==> (#[trigger] held[i]).id < next
}

/// The held packets of other sources than `ssrc`, in their order.
pub open spec fn held_of_others(held: Seq<Held>, ssrc: u32) -> Seq<Held>
    decreases held.len(),
{
    if held.len() == 0 {
        Seq::empty()
    } else if held.last().ssrc == ssrc {
        held_of_others(held.drop_last(), ssrc)
    } else {
        held_of_others(held.drop_last(), ssrc).push(held.last())
    }
}

/// The fate of each held packet of `ssrc`, in the order in which they were
/// held: all forwarded, or all dropped.
pub open spec fn fates(held: Seq<Held>, ssrc: u32, forward: bool) -> Seq<RecvReply>
    decreases held.len(),
{
    if held.len() == 0 {
        Seq::empty()
    } else if held.last().ssrc == ssrc {
        fates(held.drop_last(), ssrc, forward).push(
            if forward {
                RecvReply::Forward(held.last().id)
            } else {
                RecvReply::Drop(held.last().id)
            },
        )
    } else {
        fates(held.drop_last(), ssrc, forward)
    }
}

/// The state and the replies after a packet of the source at `i`, which is
/// `s`, was taken in; `first` are the replies that come before. A packet
/// that is to be held gets the next id; where no id is left, it is ignored.
pub open spec fn taken(
    v: SessionView,
    i: int,
    s: Source,
    p: RtpPacket,
    now: u64,
    first: Seq<RecvReply>,
) -> (SessionView, Seq<RecvReply>) {
    let rate = clock_rate_of(v.clock_rates, p.payload_type);
    let (t, verdict) = receive_step(s, p, now, rate);
    let w = SessionView { sources: v.sources.update(i, t), ..v };
    let hold = Held { ssrc: p.ssrc, id: v.next_hold_id };
    let room = v.next_hold_id < usize::MAX;
    match verdict {
        Verdict::Hold => if room {
            (
                SessionView {
                    held: v.held.push(hold),
                    next_hold_id: (v.next_hold_id + 1) as usize,
                    ..w
                },
                first.push(RecvReply::Hold(hold.id)),
            )
        } else {
            (w, first.push(RecvReply::Ignore))
        },
        Verdict::Restart => if room {
            (
                SessionView {
                    held: held_of_others(v.held, p.ssrc).push(hold),
                    next_hold_id: (v.next_hold_id + 1) as usize,
                    ..w
                },
                (first + fates(v.held, p.ssrc, false)).push(RecvReply::Hold(hold.id)),
            )
        } else {
            (
                SessionView { held: held_of_others(v.held, p.ssrc), ..w },
                (first + fates(v.held, p.ssrc, false)).push(RecvReply::Ignore),
            )
        },
        Verdict::Validated => (
            SessionView { held: held_of_others(v.held, p.ssrc), ..w },
            (first + fates(v.held, p.ssrc, true)).push(RecvReply::Passthrough),
        ),
        Verdict::Pass => (w, first.push(RecvReply::Passthrough)),
        Verdict::Ignore => (w, first.push(RecvReply::Ignore)),
    }
}

/// The state and the replies after a received packet was taken in.
///
/// A packet with the ssrc of a local source is a collision: it is reported
/// and ignored. A packet of a known remote source that comes from another
/// address than the packets before is ignored. A packet of an unknown ssrc
/// makes a new remote source, which is reported first and has the time of
/// the next RTCP packet worked out again. In the other cases the source
/// decides (`receive_step`).
pub open spec fn received(v: SessionView, p: RtpPacket, from: Option<Address>, now: u64) -> (
    SessionView,
    Seq<RecvReply>,
) {
    let i = position(v.sources, p.ssrc);
    if i < v.sources.len() {
        let s = v.sources[i];
        if s.local {
            (v, seq![RecvReply::SsrcCollision(p.ssrc), RecvReply::Ignore])
        } else if from is Some && s.rtp_from is Some && from != s.rtp_from {
            (v, seq![RecvReply::Ignore])
        } else {
            let t = Source {
                rtp_from: if s.rtp_from is Some {
                    s.rtp_from
                } else {
                    from
                },
                ..s
            };
            taken(v, i, t, p, now, Seq::empty())
        }
    } else {
        let s = Source { rtp_from: from, ..new_source(p.ssrc, false) };
        taken(
            reconsidered(SessionView { sources: v.sources.push(s), ..v }),
            i,
            s,
            p,
            now,
            seq![RecvReply::NewSsrc(p.ssrc, p.payload_type)],
        )
    }
}

/// The state and the replies after a packet that is to be sent was taken in.
///
/// A packet with the ssrc of a remote source is a collision: it is
/// reported and dropped. A packet of a local source that is leaving is
/// dropped. A packet of an unknown ssrc makes a new local source, which is
/// reported first and has the time of the next RTCP packet worked out
/// again. In the other cases the packet is counted and passes.
pub open spec fn sent(v: SessionView, p: RtpPacket, now: u64) -> (SessionView, Seq<SendReply>) {
    let i = position(v.sources, p.ssrc);
    if i < v.sources.len() {
        let s = v.sources[i];
        if !s.local {
            (v, seq![SendReply::SsrcCollision(p.ssrc), SendReply::Drop])
        } else if s.state == SourceState::Bye {
            (v, seq![SendReply::Drop])
        } else {
            (
                SessionView { sources: v.sources.update(i, send_step(s, p, now)), ..v },
                seq![SendReply::Passthrough],
            )
        }
    } else {
        (
            reconsidered(
                SessionView {
                    sources: v.sources.push(send_step(new_source(p.ssrc, true), p, now)),
                    ..v
                },
            ),
            seq![SendReply::NewSsrc(p.ssrc, p.payload_type), SendReply::Passthrough],
        )
    }
}

/// The held packets of other sources are among the held packets, in
/// their order: their ids grow as before.
#[verifier::rlimit(50)]
pub proof fn lemma_others_grow(held: Seq<Held>, ssrc: u32, next: usize)
    requires
        ids_grow(held, next),
    ensures
        ids_grow(held_of_others(held, ssrc), next),
        held_of_others(held, ssrc).len() <= held.len(),
        forall|k: int|
            0 <= k < held_of_others(held, ssrc).len() ==> (#[trigger] held_of_others(held, ssrc)[k]).ssrc
                != ssrc && held.contains(held_of_others(held, ssrc)[k]),
        held.len() > 0 && held_of_others(held, ssrc).len() > 0 ==> held_of_others(
            held,
            ssrc,
        ).last().id <= held.last().id,
    decreases held.len(),
{
    if held.len() > 0 {
        let d = held.drop_last();
        assert(ids_grow(d, next)) by {
            assert forall|i: int, j: int| 0 <= i < j < d.len() implies (#[trigger] d[i]).id < (
            #[trigger] d[j]).id by {
                assert(held[i].id < held[j].id);
            }
            assert forall|i: int| 0 <= i < d.len() implies (#[trigger] d[i]).id < next by {
                assert(held[i].id < next);
            }
        }
        lemma_others_grow(d, ssrc, next);
        let o = held_of_others(d, ssrc);
        let r = held_of_others(held, ssrc);
        assert forall|k: int| 0 <= k < r.len() implies (#[trigger] r[k]).ssrc != ssrc
            && held.contains(r[k]) by {
            if k < o.len() {
                assert(r[k] == o[k]);
                let j = choose|j: int| 0 <= j < d.len() && d[j] == o[k];
                assert(held[j] == o[k]);
            } else {
                assert(held[held.len() - 1] == r[k]);
            }
        }
        if o.len() > 0 && d.len() > 0 {
            assert(d.last() == held[held.len() - 2]);
            assert(held[held.len() - 2].id < held[held.len() - 1].id);
        }
        assert forall|i: int, j: int| 0 <= i < j < r.len() implies (#[trigger] r[i]).id < (
        #[trigger] r[j]).id by {
            if j < o.len() {
                assert(r[i] == o[i] && r[j] == o[j]);
            } else {
                assert(r[i] == o[i]);
                assert(o[i].id <= o.last().id) by {
                    if i < o.len() - 1 {
                        assert(o[i].id < o[o.len() - 1].id);
                    }
                }
            }
        }
        assert forall|i: int| 0 <= i < r.len() implies (#[trigger] r[i]).id < next by {
            if i < o.len() {
                assert(r[i] == o[i]);
            } else {
                assert(r[i] == held[held.len() - 1]);
            }
        }
    }
}

/// The fates of held packets never end the handling of a packet.
pub proof fn lemma_fates_go_on(held: Seq<Held>, ssrc: u32, forward: bool)
    ensures
        forall|i: int|
            0 <= i < fates(held, ssrc, forward).len() ==> !ends_recv(
                #[trigger] fates(held, ssrc, forward)[i],
            ),
    decreases held.len(),
{
    if held.len() > 0 {
        lemma_fates_go_on(held.drop_last(), ssrc, forward);
        let f = fates(held, ssrc, forward);
        let g = fates(held.drop_last(), ssrc, forward);
        assert forall|i: int| 0 <= i < f.len() implies !ends_recv(#[trigger] f[i]) by {
            if i < g.len() {
                assert(f[i] == g[i]);
            }
        }
    }
}

/// The replies to a received packet are never empty; the last one ends the
/// handling of the packet and no other does: a caller that hands the packet
/// in until `Hold`, `Ignore` or `Passthrough` comes gets every reply.
pub proof fn lemma_recv_replies_end(v: SessionView, p: RtpPacket, from: Option<Address>, now: u64)
    ensures
        received(v, p, from, now).1.len() > 0,
        recv_replies_end(received(v, p, from, now).1),
        recv_replies_end(received(v, p, from, now).1.skip(1)),
{
    lemma_fates_go_on(v.held, p.ssrc, true);
    lemma_fates_go_on(v.held, p.ssrc, false);
    let r = received(v, p, from, now).1;
    assert(recv_replies_end(r));
    assert forall|i: int| 0 <= i < r.skip(1).len() implies (ends_recv(#[trigger] r.skip(1)[i]) <==> i
        == r.skip(1).len() - 1) by {
        assert(r.skip(1)[i] == r[i + 1]);
    }
}

/// The table stays sound when the source at `i` takes a packet in.
#[verifier::rlimit(50)]
proof fn lemma_taken_sound(
    v: SessionView,
    i: int,
    s: Source,
    p: RtpPacket,
    now: u64,
    first: Seq<RecvReply>,
)
    requires
        0 <= i < v.sources.len(),
        valid(s),
        s.ssrc == v.sources[i].ssrc,
        distinct(v.sources),
        forall|j: int| 0 <= j < v.sources.len() ==> valid(#[trigger] v.sources[j]),
        ids_grow(v.held, v.next_hold_id),
    ensures
        distinct(taken(v, i, s, p, now, first).0.sources),
        forall|j: int|
            0 <= j < taken(v, i, s, p, now, first).0.sources.len() ==> valid(
                #[trigger] taken(v, i, s, p, now, first).0.sources[j],
            ),
        ids_grow(
            taken(v, i, s, p, now, first).0.held,
            taken(v, i, s, p, now, first).0.next_hold_id,
        ),
        taken(v, i, s, p, now, first).0.send_replies == v.send_replies,
{
    let rate = clock_rate_of(v.clock_rates, p.payload_type);
    lemma_receive_step_valid(s, p, now, rate);
    lemma_others_grow(v.held, p.ssrc, v.next_hold_id);
    let t = receive_step(s, p, now, rate).0;
    let sources = v.sources.update(i, t);
    assert(taken(v, i, s, p, now, first).0.sources == sources);
    assert forall|a: int, b: int| 0 <= a < b < sources.len() implies (#[trigger] sources[a]).ssrc != (
    #[trigger] sources[b]).ssrc by {
        assert(v.sources[a].ssrc != v.sources[b].ssrc);
    }
    assert forall|j: int| 0 <= j < sources.len() implies valid(#[trigger] sources[j]) by {
        if j != i {
            assert(valid(v.sources[j]));
        }
    }
    let others = held_of_others(v.held, p.ssrc);
    if v.next_hold_id < usize::MAX {
        let hold = Held { ssrc: p.ssrc, id: v.next_hold_id };
        let next = (v.next_hold_id + 1) as usize;
        assert(ids_grow(v.held.push(hold), next)) by {
            let h = v.held.push(hold);
            assert forall|a: int, b: int| 0 <= a < b < h.len() implies (#[trigger] h[a]).id < (
            #[trigger] h[b]).id by {
                assert(h[a] == v.held[a]);
                if b < v.held.len() {
                    assert(h[b] == v.held[b]);
                }
            }
            assert forall|a: int| 0 <= a < h.len() implies (#[trigger] h[a]).id < next by {
                if a < v.held.len() {
                    assert(h[a] == v.held[a]);
                }
            }
        }
        assert(ids_grow(others.push(hold), next)) by {
            let h = others.push(hold);
            assert forall|a: int, b: int| 0 <= a < b < h.len() implies (#[trigger] h[a]).id < (
            #[trigger] h[b]).id by {
                assert(h[a] == others[a]);
                if b < others.len() {
                    assert(h[b] == others[b]);
                }
            }
            assert forall|a: int| 0 <= a < h.len() implies (#[trigger] h[a]).id < next by {
                if a < others.len() {
                    assert(h[a] == others[a]);
                }
            }
        }
    }
}

/// The session stays sound when it takes a received packet in.
#[verifier::rlimit(50)]
pub proof fn lemma_received_sound(v: SessionView, p: RtpPacket, from: Option<Address>, now: u64)
    requires
        sound(v),
        v.recv_replies.len() == 0,
    ensures
        sound(
            SessionView {
                recv_replies: received(v, p, from, now).1.skip(1),
                ..received(v, p, from, now).0
            },
        ),
{
    lemma_recv_replies_end(v, p, from, now);
    let i = position(v.sources, p.ssrc);
    lemma_position(v.sources, p.ssrc, 0);
    if i < v.sources.len() {
        let s = v.sources[i];
        if s.local {
        } else if from is Some && s.rtp_from is Some && from != s.rtp_from {
        } else {
            let t = Source {
                rtp_from: if s.rtp_from is Some {
                    s.rtp_from
                } else {
                    from
                },
                ..s
            };
            lemma_taken_sound(v, i, t, p, now, Seq::empty());
        }
    } else {
        let s = Source { rtp_from: from, ..new_source(p.ssrc, false) };
        let start = reconsidered(SessionView { sources: v.sources.push(s), ..v });
        assert(distinct(start.sources)) by {
            assert forall|a: int, b: int| 0 <= a < b < start.sources.len() implies (
            #[trigger] start.sources[a]).ssrc != (#[trigger] start.sources[b]).ssrc by {
                if b < v.sources.len() {
                    assert(v.sources[a].ssrc != v.sources[b].ssrc);
                } else {
                    assert(v.sources[a].ssrc != p.ssrc);
                }
            }
        }
        assert forall|j: int| 0 <= j < start.sources.len() implies valid(
            #[trigger] start.sources[j],
        ) by {
            if j < v.sources.len() {
                assert(valid(v.sources[j]));
            }
        }
        lemma_taken_sound(start, i, s, p, now, seq![RecvReply::NewSsrc(p.ssrc, p.payload_type)]);
    }
}

/// Where the table is searched from `from` on, the source found has the
/// ssrc, and no source before it has.
pub proof fn lemma_position(sources: Seq<Source>, ssrc: u32, from: int)
    requires
        0 <= from,
    ensures
        from <= position_from(sources, ssrc, from) || position_from(sources, ssrc, from)
            == sources.len(),
        position_from(sources, ssrc, from) <= sources.len(),
        position_from(sources, ssrc, from) < sources.len() ==> sources[position_from(
            sources,
            ssrc,
            from,
        )].ssrc == ssrc,
        forall|j: int|
            from <= j < position_from(sources, ssrc, from) ==> (#[trigger] sources[j]).ssrc != ssrc,
    decreases sources.len() - from,
{
    if from < sources.len() && sources[from].ssrc != ssrc {
        lemma_position(sources, ssrc, from + 1);
    }
}

/// The replies to a sent packet are never empty; the last one ends the
/// handling of the packet and no other does.
pub proof fn lemma_send_replies_end(v: SessionView, p: RtpPacket, now: u64)
    ensures
        sent(v, p, now).1.len() > 0,
        send_replies_end(sent(v, p, now).1),
        send_replies_end(sent(v, p, now).1.skip(1)),
{
    let r = sent(v, p, now).1;
    assert forall|i: int| 0 <= i < r.skip(1).len() implies (ends_send(#[trigger] r.skip(1)[i]) <==> i
        == r.skip(1).len() - 1) by {
        assert(r.skip(1)[i] == r[i + 1]);
    }
}

/// A reply to a received RTCP packet as contracts speak of it.
pub enum RtcpNote {
    NewSsrc(u32),
    SsrcCollision(u32),
    TimerReconsideration,
    RequestKeyUnit { ssrcs: Seq<u32>, fir: bool },
    NewCName(Seq<char>, u32),
    NewRtpNtp(u32, u32, u64),
}

impl View for RtcpRecvReply {
    type V = RtcpNote;

    open spec fn view(&self) -> RtcpNote {
        match *self {
            RtcpRecvReply::NewSsrc(s) => RtcpNote::NewSsrc(s),
            RtcpRecvReply::SsrcCollision(s) => RtcpNote::SsrcCollision(s),
            RtcpRecvReply::TimerReconsideration => RtcpNote::TimerReconsideration,
            RtcpRecvReply::RequestKeyUnit { ssrcs, fir } => RtcpNote::RequestKeyUnit {
                ssrcs: ssrcs@,
                fir,
            },
            RtcpRecvReply::NewCName((cname, ssrc)) => RtcpNote::NewCName(cname@, ssrc),
            RtcpRecvReply::NewRtpNtp((ssrc, rtp, ntp)) => RtcpNote::NewRtpNtp(ssrc, rtp, ntp),
        }
    }
}

/// The replies of a list as contracts speak of them.
pub open spec fn notes(r: Seq<RtcpRecvReply>) -> Seq<RtcpNote> {
    r.map_values(|x: RtcpRecvReply| x@)
}

/// Whether `ssrc` is a source of this engine.
pub open spec fn is_local(sources: Seq<Source>, ssrc: u32) -> bool {
    known(sources, ssrc) && sources[position(sources, ssrc)].local
}

/// Whether `ssrc` is a source of this engine that sends.
pub open spec fn is_local_sender(sources: Seq<Source>, ssrc: u32) -> bool {
    is_local(sources, ssrc) && sources[position(sources, ssrc)].sender
}

/// The index of the report from `from` about `about`, or the length of the
/// list where there is none, searching from `start`.
pub open spec fn report_position(reports: Seq<Report>, from: u32, about: u32, start: int) -> int
    decreases reports.len() - start,
{
    if start < 0 || start >= reports.len() {
        reports.len() as int
    } else if reports[start].from == from && reports[start].block.rb.ssrc == about {
        start
    } else {
        report_position(reports, from, about, start + 1)
    }
}

/// The reports with one more: it takes the place of the one from the same
/// source about the same source, or goes to the end.
pub open spec fn with_report(reports: Seq<Report>, r: Report) -> Seq<Report> {
    let i = report_position(reports, r.from, r.block.rb.ssrc, 0);
    if i < reports.len() {
        reports.update(i, r)
    } else {
        reports.push(r)
    }
}

/// The reports after the report blocks that `from` sent were filed: those
/// about local sources are kept, the others passed over.
pub open spec fn filed(
    reports: Seq<Report>,
    sources: Seq<Source>,
    from: u32,
    blocks: Seq<ReportBlock>,
    now: u64,
    ntp_now: u64,
) -> Seq<Report>
    decreases blocks.len(),
{
    if blocks.len() == 0 {
        reports
    } else {
        let before = filed(reports, sources, from, blocks.drop_last(), now, ntp_now);
        if is_local(sources, blocks.last().ssrc) {
            with_report(
                before,
                Report {
                    from,
                    block: ReceivedRb {
                        rb: blocks.last(),
                        receive_time: now,
                        receive_ntp_time: ntp_now,
                    },
                },
            )
        } else {
            before
        }
    }
}

/// The sources after the remote ones among `ssrcs` said goodbye.
pub open spec fn departed(sources: Seq<Source>, ssrcs: Seq<u32>) -> Seq<Source>
    decreases ssrcs.len(),
{
    if ssrcs.len() == 0 {
        sources
    } else {
        let before = departed(sources, ssrcs.drop_last());
        let i = position(before, ssrcs.last());
        if i < before.len() && !before[i].local {
            before.update(i, Source { state: SourceState::Bye, ..before[i] })
        } else {
            before
        }
    }
}

/// Those ssrcs of the list that are local senders, in their order.
pub open spec fn local_senders_among(sources: Seq<Source>, ssrcs: Seq<u32>) -> Seq<u32>
    decreases ssrcs.len(),
{
    if ssrcs.len() == 0 {
        Seq::empty()
    } else if is_local_sender(sources, ssrcs.last()) {
        local_senders_among(sources, ssrcs.drop_last()).push(ssrcs.last())
    } else {
        local_senders_among(sources, ssrcs.drop_last())
    }
}

/// A remote source after a report of its own came from `from`: a source of
/// which nothing but reports is known becomes active.
pub open spec fn heard(s: Source, from: Option<Address>) -> Source {
    Source {
        state: if s.state == SourceState::Initial && s.max_seq is None {
            SourceState::Active
        } else {
            s.state
        },
        rtcp_from: if from is Some {
            from
        } else {
            s.rtcp_from
        },
        ..s
    }
}

/// The sources with the remote source `ssrc` in them, heard from `from`,
/// and the reply that tells of it where it is new.
pub open spec fn with_remote(sources: Seq<Source>, ssrc: u32, from: Option<Address>) -> (
    Seq<Source>,
    Seq<RtcpNote>,
) {
    let i = position(sources, ssrc);
    if i < sources.len() {
        (sources.update(i, heard(sources[i], from)), Seq::empty())
    } else {
        (sources.push(heard(new_source(ssrc, false), from)), seq![RtcpNote::NewSsrc(ssrc)])
    }
}

/// The state and the replies after one RTCP packet was taken in.
///
/// A report from an ssrc of this engine is a collision. Any other report
/// makes its source known; a sender report is kept with its source and
/// told to the caller as a pair of RTP and NTP time; the report blocks
/// about local sources are filed. A canonical name, of the items of a
/// source description, is told to the caller.
/// A goodbye marks its remote sources as gone. A picture loss indication
/// or full intra request for local senders is told to the caller.
pub open spec fn rtcp_step(
    v: SessionView,
    packet: RtcpPacketView,
    from: Option<Address>,
    now: u64,
    ntp_now: u64,
) -> (SessionView, Seq<RtcpNote>) {
    match packet {
        RtcpPacketView::Sr { ssrc, info, report_blocks } => {
            if is_local(v.sources, ssrc) {
                (v, seq![RtcpNote::SsrcCollision(ssrc)])
            } else {
                let (sources, first) = with_remote(v.sources, ssrc, from);
                let i = position(v.sources, ssrc);
                (
                    SessionView {
                        sources: sources.update(
                            i,
                            Source {
                                sender: true,
                                last_sr: Some(info),
                                last_sr_time: Some(now),
                                ..sources[i]
                            },
                        ),
                        reports: filed(v.reports, v.sources, ssrc, report_blocks, now, ntp_now),
                        ..v
                    },
                    first.push(RtcpNote::NewRtpNtp(ssrc, info.rtp_timestamp, info.ntp_timestamp)),
                )
            }
        },
        RtcpPacketView::Rr { ssrc, report_blocks } => {
            if is_local(v.sources, ssrc) {
                (v, seq![RtcpNote::SsrcCollision(ssrc)])
            } else {
                let (sources, first) = with_remote(v.sources, ssrc, from);
                (
                    SessionView {
                        sources,
                        reports: filed(v.reports, v.sources, ssrc, report_blocks, now, ntp_now),
                        ..v
                    },
                    first,
                )
            }
        },
        RtcpPacketView::Sdes { ssrc, item, value } => {
            if item != SDES_CNAME || is_local(v.sources, ssrc) {
                (v, Seq::empty())
            } else {
                let (sources, first) = with_remote(v.sources, ssrc, from);
                (SessionView { sources, ..v }, first.push(RtcpNote::NewCName(value, ssrc)))
            }
        },
        RtcpPacketView::Bye { ssrcs } => (
            SessionView { sources: departed(v.sources, ssrcs), ..v },
            Seq::empty(),
        ),
        RtcpPacketView::PayloadFeedback { format, sender_ssrc, media_ssrc, ssrcs } => {
            let asked = local_senders_among(v.sources, ssrcs);
            if format == PSFB_PLI && is_local_sender(v.sources, media_ssrc) {
                (v, seq![RtcpNote::RequestKeyUnit { ssrcs: seq![media_ssrc], fir: false }])
            } else if format == PSFB_FIR && asked.len() > 0 {
                (v, seq![RtcpNote::RequestKeyUnit { ssrcs: asked, fir: true }])
            } else {
                (v, Seq::empty())
            }
        },
        RtcpPacketView::Other => (v, Seq::empty()),
    }
}

/// The state and the replies after the packets of a compound RTCP packet
/// were taken in, one after the other.
pub open spec fn rtcp_steps(
    v: SessionView,
    packets: Seq<RtcpPacketView>,
    from: Option<Address>,
    now: u64,
    ntp_now: u64,
) -> (SessionView, Seq<RtcpNote>)
    decreases packets.len(),
{
    if packets.len() == 0 {
        (v, Seq::empty())
    } else {
        let (w, first) = rtcp_steps(v, packets.drop_last(), from, now, ntp_now);
        let (x, more) = rtcp_step(w, packets.last(), from, now, ntp_now);
        (x, first + more)
    }
}

/// Received RTCP leaves the packets that the caller holds, and the replies
/// that are owed for received and sent packets, as they are.
pub proof fn lemma_rtcp_keeps_held(
    v: SessionView,
    packets: Seq<RtcpPacketView>,
    from: Option<Address>,
    now: u64,
    ntp_now: u64,
)
    ensures
        rtcp_steps(v, packets, from, now, ntp_now).0.held == v.held,
        rtcp_steps(v, packets, from, now, ntp_now).0.next_hold_id == v.next_hold_id,
        rtcp_steps(v, packets, from, now, ntp_now).0.recv_replies == v.recv_replies,
        rtcp_steps(v, packets, from, now, ntp_now).0.send_replies == v.send_replies,
    decreases packets.len(),
{
    if packets.len() > 0 {
        lemma_rtcp_keeps_held(v, packets.drop_last(), from, now, ntp_now);
    }
}

/// The smoothed size of RTCP packets after one of `size` bytes: the new
/// size counts for a sixteenth.
pub open spec fn averaged(avg: u64, size: usize) -> u64 {
    ((size + 15 * avg) / 16) as u64
}

/// The state and the replies after a compound RTCP packet of `size` bytes
/// was taken in: its packets one after the other, then the size goes into
/// the average, and a regular deadline is set aside so that it is worked
/// out again; the last reply tells the caller to ask for it.
pub open spec fn rtcp_received(
    v: SessionView,
    packets: Seq<RtcpPacketView>,
    size: usize,
    from: Option<Address>,
    now: u64,
    ntp_now: u64,
) -> (SessionView, Seq<RtcpNote>) {
    let (w, replies) = rtcp_steps(v, packets, from, now, ntp_now);
    (
        reconsidered(SessionView { avg_rtcp_size: averaged(w.avg_rtcp_size, size), ..w }),
        replies.push(RtcpNote::TimerReconsideration),
    )
}

/// The reason that the engine gives for leaving at the end of the streams
/// that it sends.
pub open spec fn end_of_stream() -> Seq<char> {
    "End of Stream"@
}

/// The reason that the engine gives for leaving at the end of the streams
/// that it receives.
pub open spec fn end_of_received_streams() -> Seq<char> {
    "End of stream"@
}

/// Whether a goodbye of the session takes the source along: a local sender
/// that is not the one under which the session reports.
pub open spec fn leaves_with_session(s: Source, internal: Option<u32>) -> bool {
    s.local && s.sender && Some(s.ssrc) != internal
}

/// The sources after a goodbye of the session was scheduled.
pub open spec fn parting(sources: Seq<Source>, internal: Option<u32>) -> Seq<Source> {
    sources.map_values(
        |s: Source|
            if leaves_with_session(s, internal) {
                Source { state: SourceState::Bye, ..s }
            } else {
                s
            },
    )
}

/// The state after a goodbye of the session was scheduled at `now`: the
/// local senders but the internal one are leaving, and the RTCP packet
/// that says so is due at once.
pub open spec fn bye_scheduled(v: SessionView, reason: Seq<char>, now: u64) -> SessionView {
    SessionView {
        sources: parting(v.sources, v.internal_ssrc),
        bye_reason: Some(reason),
        next_rtcp_send: Some(now),
        early: true,
        ..v
    }
}

/// Whether a local source that is not the internal one and has not left
/// stands against a goodbye of the session: a receiver when the senders
/// end (`sender` false), a sender when the receivers end (`sender` true).
pub open spec fn holds_session(s: Source, internal: Option<u32>, sender: bool) -> bool {
    s.local && s.sender == sender && s.state != SourceState::Bye && Some(s.ssrc) != internal
}

/// Whether some source stands against a goodbye of the session.
pub open spec fn session_held(sources: Seq<Source>, internal: Option<u32>, sender: bool) -> bool {
    exists|i: int| 0 <= i < sources.len() && holds_session(#[trigger] sources[i], internal, sender)
}

/// The state after the streams that this engine sends have ended at `now`:
/// the local senders but the internal one are leaving; where no local
/// receiver stands against it, the whole session says goodbye.
pub open spec fn send_ended(v: SessionView, now: u64) -> SessionView {
    if session_held(v.sources, v.internal_ssrc, false) {
        SessionView {
            sources: parting(v.sources, v.internal_ssrc),
            bye_reason: Some(end_of_stream()),
            ..v
        }
    } else {
        bye_scheduled(v, end_of_stream(), now)
    }
}

/// The state after the streams that this engine receives have ended at
/// `now`: where no local sender stands against it, the session says goodbye.
pub open spec fn recv_ended(v: SessionView, now: u64) -> SessionView {
    if session_held(v.sources, v.internal_ssrc, true) {
        v
    } else {
        bye_scheduled(v, end_of_received_streams(), now)
    }
}

/// Whether the list holds the request.
pub open spec fn requested(requests: Seq<KeyUnitRequest>, r: KeyUnitRequest) -> bool {
    exists|i: int| 0 <= i < requests.len() && #[trigger] requests[i] == r
}

/// The state after a key frame was asked of the remote sender `ssrc` at
/// `now`: the request waits for the next RTCP packet, which with early
/// feedback (AVPF) is due at once.
pub open spec fn key_unit_requested(
    v: SessionView,
    now: u64,
    kind: KeyUnitRequestType,
    ssrc: u32,
) -> SessionView {
    let r = KeyUnitRequest { ssrc, kind };
    let w = SessionView {
        requests: if requested(v.requests, r) {
            v.requests
        } else {
            v.requests.push(r)
        },
        ..v
    };
    if v.profile == RtpProfile::Avpf {
        SessionView {
            next_rtcp_send: match v.next_rtcp_send {
                Some(t) if t <= now => Some(t),
                _ => Some(now),
            },
            early: true,
            ..w
        }
    } else {
        w
    }
}

/// Number of sources that have not left.
pub open spec fn members(sources: Seq<Source>) -> nat
    decreases sources.len(),
{
    if sources.len() == 0 {
        0
    } else if sources.last().state != SourceState::Bye {
        members(sources.drop_last()) + 1
    } else {
        members(sources.drop_last())
    }
}

/// Number of senders that have not left; only the local ones with `local`.
pub open spec fn senders(sources: Seq<Source>, local: bool) -> nat
    decreases sources.len(),
{
    if sources.len() == 0 {
        0
    } else if sources.last().state != SourceState::Bye && sources.last().sender && (!local
        || sources.last().local) {
        senders(sources.drop_last(), local) + 1
    } else {
        senders(sources.drop_last(), local)
    }
}

/// The shortest interval that the configuration allows: the configured
/// one, halved before the first RTCP packet was sent, and halved with
/// reduced-size RTCP under AVPF.
pub open spec fn shortest_interval(v: SessionView) -> u64 {
    let a = if v.sent_rtcp { v.min_rtcp_interval } else { v.min_rtcp_interval / 2 };
    if v.profile == RtpProfile::Avpf && v.reduced_size_rtcp { a / 2 } else { a }
}

/// The interval that the traffic asks for: the time in which the members
/// that share a part of the RTCP bandwidth may each send one packet of
/// average size. Where senders are no more than a quarter of the members,
/// they share a quarter of the bandwidth and the others the rest.
pub open spec fn traffic_interval(v: SessionView) -> int {
    let m: int = if members(v.sources) == 0 { 1 } else { members(v.sources) as int };
    let s: int = senders(v.sources, false) as int;
    let we_sent = senders(v.sources, true) > 0;
    let (bandwidth, n): (int, int) = if s * 4 <= m {
        if we_sent {
            ((v.rtcp_bandwidth / 4) as int, s)
        } else {
            ((v.rtcp_bandwidth * 3) / 4, m - s)
        }
    } else {
        (v.rtcp_bandwidth as int, m)
    };
    if bandwidth > 0 {
        (v.avg_rtcp_size * n * 1_000_000_000) / bandwidth
    } else {
        0
    }
}

/// The interval between regular RTCP packets before it is randomized: what
/// the traffic asks for, but no less than the shortest interval.
pub open spec fn rtcp_interval(v: SessionView) -> u64 {
    let t = traffic_interval(v);
    if t < shortest_interval(v) {
        shortest_interval(v)
    } else if t > u64::MAX {
        u64::MAX
    } else {
        t as u64
    }
}

/// An interval stretched by a factor between one half and three halves
/// that the number `rnd` picks.
pub open spec fn randomized(interval: u64, rnd: u32) -> u64 {
    let t = (interval * (0x8000_0000 + rnd)) / 0x1_0000_0000;
    if t > u64::MAX { u64::MAX } else { t as u64 }
}

/// The state after the time of the next RTCP packet was asked for at
/// `now`: a deadline that stands is kept; else one is set, a randomized
/// interval after the last RTCP packet was sent, or after `now` where the
/// schedule starts. A session without sources has no deadline.
pub open spec fn armed(v: SessionView, now: u64, rnd: u32) -> SessionView {
    if v.sources.len() == 0 || v.next_rtcp_send is Some {
        v
    } else {
        let start = match v.last_rtcp_send {
            Some(t) => t,
            None => now,
        };
        let due: int = start + randomized(rtcp_interval(v), rnd);
        SessionView {
            next_rtcp_send: Some(if due > u64::MAX { u64::MAX } else { due as u64 }),
            last_rtcp_send: Some(start),
            early: false,
            ..v
        }
    }
}

/// The deadline that `poll_rtcp_send_timeout` tells.
pub open spec fn deadline(v: SessionView) -> Option<u64> {
    if v.sources.len() == 0 {
        None
    } else {
        v.next_rtcp_send
    }
}

/// The randomized interval lies between half the interval and three
/// halves of it; where the number drawn is in the upper half of its range,
/// it is no shorter than the interval itself. The interval is never
/// shorter than the shortest that the configuration allows.
pub proof fn lemma_interval_bounds(v: SessionView, rnd: u32)
    ensures
        rtcp_interval(v) >= shortest_interval(v),
        randomized(rtcp_interval(v), rnd) >= rtcp_interval(v) / 2,
        randomized(rtcp_interval(v), rnd) <= rtcp_interval(v) / 2 + rtcp_interval(v),
        rnd >= 0x8000_0000 ==> randomized(rtcp_interval(v), rnd) >= rtcp_interval(v)
            || randomized(rtcp_interval(v), rnd) == u64::MAX,
{
    let t = rtcp_interval(v) as int;
    let r = rnd as int;
    assert(t / 2 <= (t * (0x8000_0000 + r)) / 0x1_0000_0000 <= t / 2 + t) by (nonlinear_arith)
        requires
            0 <= t,
            0 <= r < 0x1_0000_0000,
    ;
    if rnd >= 0x8000_0000 {
        assert((t * (0x8000_0000 + r)) / 0x1_0000_0000 >= t) by (nonlinear_arith)
            requires
                0 <= t,
                0x8000_0000 <= r < 0x1_0000_0000,
        ;
    }
}

/// Once a deadline is set, asking again yields the same deadline and
/// changes nothing, whatever number is drawn: as long as nothing else
/// happens to the session, the deadline stays where it is.
pub proof fn lemma_deadline_stands(v: SessionView, now1: u64, rnd1: u32, now2: u64, rnd2: u32)
    ensures
        armed(armed(v, now1, rnd1), now2, rnd2) == armed(v, now1, rnd1),
        deadline(armed(armed(v, now1, rnd1), now2, rnd2)) == deadline(armed(v, now1, rnd1)),
{
}

/// A regular deadline is no nearer to the last RTCP packet (or to the
/// start of the schedule) than half the interval and no farther than
/// three halves of it; with a number from the upper half of the range it
/// keeps the shortest interval that the configuration allows.
pub proof fn lemma_deadline_bounds(v: SessionView, now: u64, rnd: u32)
    requires
        v.sources.len() > 0,
        v.next_rtcp_send is None,
    ensures
        ({
            let w = armed(v, now, rnd);
            let start: int = w.last_rtcp_send->0 as int;
            let due: int = w.next_rtcp_send->0 as int;
            &&& w.next_rtcp_send is Some
            &&& w.last_rtcp_send == Some(
                match v.last_rtcp_send {
                    Some(t) => t,
                    None => now,
                },
            )
            &&& due >= start
            &&& due == u64::MAX || (start + rtcp_interval(v) / 2 <= due <= start + rtcp_interval(v) / 2
                + rtcp_interval(v))
            &&& rnd >= 0x8000_0000 ==> due == u64::MAX || due >= start + shortest_interval(v)
        }),
{
    lemma_interval_bounds(v, rnd);
}

/// Whether a source is a local one that sends and has not left: such a
/// source reports as a sender.
pub open spec fn reports_as_sender(s: Source) -> bool {
    s.local && s.sender && s.state == SourceState::Active
}

/// The index of the first source at or behind `from` that reports as a
/// sender, or the length of the table where there is none.
pub open spec fn sender_position(sources: Seq<Source>, from: int) -> int
    decreases sources.len() - from,
{
    if from < 0 || from >= sources.len() {
        sources.len() as int
    } else if reports_as_sender(sources[from]) {
        from
    } else {
        sender_position(sources, from + 1)
    }
}

/// Whether a report block tells of the source: a remote sender that is
/// valid and has not left.
pub open spec fn wants_report(s: Source) -> bool {
    !s.local && s.sender && s.state == SourceState::Active
}

/// The sources after a report was made at `now`, and the report blocks
/// of that report: one for each of the first 31 remote senders.
pub open spec fn reporting(sources: Seq<Source>, now: u64) -> (Seq<Source>, Seq<ReportBlock>)
    decreases sources.len(),
{
    if sources.len() == 0 {
        (Seq::empty(), Seq::empty())
    } else {
        let (s, b) = reporting(sources.drop_last(), now);
        let x = sources.last();
        if wants_report(x) && b.len() < MAX_REPORT_BLOCKS {
            (s.push(reported(x, now)), b.push(report_block_of(x, now)))
        } else {
            (s.push(x), b)
        }
    }
}

/// The sources that stay when a goodbye is sent, and the ssrcs that it
/// names: the first 31 local sources that are marked as leaving.
pub open spec fn leaving(sources: Seq<Source>) -> (Seq<Source>, Seq<u32>)
    decreases sources.len(),
{
    if sources.len() == 0 {
        (Seq::empty(), Seq::empty())
    } else {
        let (kept, byes) = leaving(sources.drop_last());
        let x = sources.last();
        if x.local && x.state == SourceState::Bye && byes.len() < MAX_REPORT_BLOCKS {
            (kept, byes.push(x.ssrc))
        } else {
            (kept.push(x), byes)
        }
    }
}

/// The bytes, or none where there are none.
pub open spec fn or_empty(bytes: Option<Seq<u8>>) -> Seq<u8> {
    match bytes {
        Some(b) => b,
        None => Seq::empty(),
    }
}

/// The bytes of one request for a key frame that `reporter` sends.
pub open spec fn request_bytes(reporter: u32, r: KeyUnitRequest) -> Seq<u8> {
    match r.kind {
        KeyUnitRequestType::Pli => or_empty(pli_bytes(reporter, r.ssrc)),
        KeyUnitRequestType::Fir(count) => or_empty(
            fir_bytes(reporter, r.ssrc, (count % 256) as u8),
        ),
    }
}

/// The bytes of the requests for key frames that `reporter` sends, in the
/// order of the requests.
pub open spec fn feedback_bytes(reporter: u32, requests: Seq<KeyUnitRequest>) -> Seq<u8>
    decreases requests.len(),
{
    if requests.len() == 0 {
        Seq::empty()
    } else {
        feedback_bytes(reporter, requests.drop_last()) + request_bytes(reporter, requests.last())
    }
}

/// Whether an RTCP packet is due at `now`.
pub open spec fn is_due(v: SessionView, now: u64) -> bool {
    v.next_rtcp_send is Some && v.next_rtcp_send->0 <= now
}

/// The ssrc under which the session reports: that of its first sender;
/// without a sender the internal one, which is `rnd` where none is set.
pub open spec fn reporter(v: SessionView, rnd: u32) -> u32 {
    let i = sender_position(v.sources, 0);
    if i < v.sources.len() {
        v.sources[i].ssrc
    } else {
        match v.internal_ssrc {
            Some(s) => s,
            None => rnd,
        }
    }
}

/// Whether the packet that is due holds feedback alone: an early packet
/// under AVPF with reduced-size RTCP, with requests waiting.
pub open spec fn feedback_alone(v: SessionView) -> bool {
    v.early && v.profile == RtpProfile::Avpf && v.reduced_size_rtcp && v.requests.len() > 0
        && v.bye_reason is None
}

/// The state after the RTCP packet that is due was made at `now`, and the
/// bytes of the packet.
///
/// A regular packet holds, in this order: a sender report of the first
/// local sender, or else a receiver report under the internal ssrc, with
/// a report block for each of the first 31 remote senders; the canonical
/// name of the reporter; a goodbye for the local sources that are
/// leaving, which are then forgotten; and the requests for key frames. A
/// packet with feedback alone holds the requests and changes nothing else.
pub open spec fn rtcp_sent(v: SessionView, now: u64, ntp_now: u64, rnd: u32) -> (
    SessionView,
    Seq<u8>,
) {
    let ssrc = reporter(v, rnd);
    let feedback = feedback_bytes(ssrc, v.requests);
    if feedback_alone(v) {
        (
            SessionView {
                requests: Seq::empty(),
                next_rtcp_send: None,
                early: false,
                avg_rtcp_size: averaged(v.avg_rtcp_size, feedback.len() as usize),
                ..v
            },
            feedback,
        )
    } else {
        let i = sender_position(v.sources, 0);
        let (told, blocks) = reporting(v.sources, now);
        let info = sender_info_of(
            v.sources[i],
            now,
            ntp_now,
            match v.sources[i].payload_type {
                Some(pt) => clock_rate_of(v.clock_rates, pt),
                None => None,
            },
        );
        let report = if i < v.sources.len() {
            or_empty(sender_report_bytes(ssrc, info, blocks))
        } else {
            or_empty(receiver_report_bytes(ssrc, blocks))
        };
        let noted = if i < v.sources.len() {
            told.update(i, Source { last_sr: Some(info), last_sr_time: Some(now), ..told[i] })
        } else {
            told
        };
        let (kept, byes) = leaving(noted);
        let bye = if byes.len() > 0 {
            or_empty(
                bye_bytes(
                    byes,
                    match v.bye_reason {
                        Some(r) => r,
                        None => Seq::empty(),
                    },
                ),
            )
        } else {
            Seq::empty()
        };
        let internal = i >= v.sources.len() && v.internal_ssrc is None;
        let bytes = report + or_empty(cname_bytes(ssrc, v.cname)) + bye + feedback;
        (
            SessionView {
                sources: if internal && !known(kept, rnd) {
                    kept.push(Source { state: SourceState::Active, ..new_source(rnd, true) })
                } else {
                    kept
                },
                requests: Seq::empty(),
                internal_ssrc: if internal {
                    Some(rnd)
                } else {
                    v.internal_ssrc
                },
                bye_reason: None,
                next_rtcp_send: None,
                last_rtcp_send: Some(now),
                early: false,
                sent_rtcp: true,
                avg_rtcp_size: averaged(v.avg_rtcp_size, bytes.len() as usize),
                ..v
            },
            bytes,
        )
    }
}

/// A report keeps the place and the ssrc of every source, makes no more
/// report blocks than fit into one packet, and none that cannot be written.
#[verifier::rlimit(50)]
pub proof fn lemma_reporting(sources: Seq<Source>, now: u64)
    ensures
        reporting(sources, now).0.len() == sources.len(),
        blocks_fit(reporting(sources, now).1),
        forall|j: int|
            0 <= j < sources.len() ==> (#[trigger] reporting(sources, now).0[j]).ssrc
                == sources[j].ssrc && (valid(sources[j]) ==> valid(reporting(sources, now).0[j])),
    decreases sources.len(),
{
    if sources.len() > 0 {
        lemma_reporting(sources.drop_last(), now);
        let (s, b) = reporting(sources.drop_last(), now);
        let r = reporting(sources, now);
        assert forall|j: int| 0 <= j < sources.len() implies (#[trigger] r.0[j]).ssrc
            == sources[j].ssrc && (valid(sources[j]) ==> valid(r.0[j])) by {
            if j < sources.len() - 1 {
                assert(r.0[j] == s[j]);
                assert(sources.drop_last()[j] == sources[j]);
            }
        }
        assert forall|k: int| 0 <= k < r.1.len() implies (#[trigger] r.1[k]).cumulative_lost
            <= crate::rtcp::MAX_CUMULATIVE_LOST by {
            if k < b.len() {
                assert(r.1[k] == b[k]);
            }
        }
    }
}

/// A goodbye names no more sources than fit into one packet; the sources
/// that stay are sources of the table, in their order.
#[verifier::rlimit(50)]
pub proof fn lemma_leaving(sources: Seq<Source>)
    ensures
        leaving(sources).1.len() <= MAX_REPORT_BLOCKS,
        leaving(sources).0.len() <= sources.len(),
        forall|k: int|
            0 <= k < leaving(sources).0.len() ==> sources.contains(#[trigger] leaving(sources).0[k]),
        distinct(sources) ==> distinct(leaving(sources).0),
    decreases sources.len(),
{
    if sources.len() > 0 {
        let d = sources.drop_last();
        lemma_leaving(d);
        let (kept, byes) = leaving(d);
        let r = leaving(sources);
        assert forall|k: int| 0 <= k < r.0.len() implies sources.contains(#[trigger] r.0[k]) by {
            if k < kept.len() {
                assert(r.0[k] == kept[k]);
                let j = choose|j: int| 0 <= j < d.len() && d[j] == kept[k];
                assert(sources[j] == kept[k]);
            } else {
                assert(sources[sources.len() - 1] == r.0[k]);
            }
        }
        if distinct(sources) {
            assert(distinct(d));
            assert forall|a: int, b: int| 0 <= a < b < r.0.len() implies (#[trigger] r.0[a]).ssrc != (
            #[trigger] r.0[b]).ssrc by {
                if b < kept.len() {
                    assert(r.0[a] == kept[a] && r.0[b] == kept[b]);
                } else {
                    assert(r.0[a] == kept[a]);
                    let j = choose|j: int| 0 <= j < d.len() && d[j] == kept[a];
                    assert(sources[j].ssrc != sources[sources.len() - 1].ssrc);
                }
            }
        }
    }
}

/// The ssrcs of the sources, in the order of the table.
pub open spec fn ssrcs_of(sources: Seq<Source>) -> Seq<u32> {
    sources.map_values(|s: Source| s.ssrc)
}

/// The source with `ssrc`, where it is on the given side and sends or not
/// as asked.
pub open spec fn source_with(sources: Seq<Source>, ssrc: u32, local: bool, sender: bool) -> Option<
    Source,
> {
    let i = position(sources, ssrc);
    if i < sources.len() && sources[i].local == local && sources[i].sender == sender {
        Some(sources[i])
    } else {
        None
    }
}

/// The report blocks received about `ssrc`, each with the source that
/// sent it, in the order in which the first of each reporter came.
pub open spec fn reports_about(reports: Seq<Report>, ssrc: u32) -> Seq<(u32, ReceivedRb)>
    decreases reports.len(),
{
    if reports.len() == 0 {
        Seq::empty()
    } else if reports.last().block.rb.ssrc == ssrc {
        reports_about(reports.drop_last(), ssrc).push((reports.last().from, reports.last().block))
    } else {
        reports_about(reports.drop_last(), ssrc)
    }
}

/// The replies of the session to a packet, all of them: those still owed
/// from before where there are any, else those to the packet.
pub open spec fn replies_to(v: SessionView, p: RtpPacket, from: Option<Address>, now: u64) -> Seq<
    RecvReply,
> {
    if v.recv_replies.len() > 0 {
        v.recv_replies
    } else {
        received(v, p, from, now).1
    }
}

/// The session after all replies to a packet were fetched.
pub open spec fn session_after(v: SessionView, p: RtpPacket, from: Option<Address>, now: u64) -> SessionView {
    if v.recv_replies.len() > 0 {
        SessionView { recv_replies: Seq::empty(), ..v }
    } else {
        SessionView { recv_replies: Seq::empty(), ..received(v, p, from, now).0 }
    }
}

/// The replies of the session to a packet that is to be sent, all of
/// them: those still owed from before where there are any, else those to
/// the packet.
pub open spec fn send_replies_to(v: SessionView, p: RtpPacket, now: u64) -> Seq<SendReply> {
    if v.send_replies.len() > 0 {
        v.send_replies
    } else {
        sent(v, p, now).1
    }
}

/// The session after all replies to a packet that is to be sent were fetched.
pub open spec fn session_after_send(v: SessionView, p: RtpPacket, now: u64) -> SessionView {
    if v.send_replies.len() > 0 {
        SessionView { send_replies: Seq::empty(), ..v }
    } else {
        SessionView { send_replies: Seq::empty(), ..sent(v, p, now).0 }
    }
}

/// What is told of a source to whoever asks how the session fares.
#[derive(Debug, Clone, Copy, PartialEq, Eq, Structural)]
pub struct SourceStats {
    pub ssrc: u32,
    pub sender: bool,
    pub local: bool,
    /// Packets sent or received; of senders only.
    pub packets: Option<u64>,
    /// Payload bytes sent or received; of senders only.
    pub octets: Option<u64>,
    /// Bits per second; of senders only.
    pub bitrate: Option<u64>,
    /// Interarrival jitter in timestamp units; of remote senders only.
    pub jitter: Option<u32>,
    /// Packets that did not come; of remote senders only.
    pub packets_lost: Option<u64>,
    /// The clock rate of the payload type, where both are known; not of
    /// remote receivers.
    pub clock_rate: Option<u32>,
    /// Where RTP comes from; of remote senders only.
    pub rtp_from: Option<Address>,
    /// Where RTCP comes from; of remote senders only.
    pub rtcp_from: Option<Address>,
    /// The last sender report sent or received; of senders only.
    pub sr: Option<SenderInfo>,
    /// The last report block sent about the source; of remote senders only.
    pub sent_rb: Option<ReportBlock>,
}

/// What is told of a source, given the clock rates of the payload types.
pub open spec fn stats_of(s: Source, rates: Seq<(u8, u32)>) -> SourceStats {
    let remote_sender = !s.local && s.sender;
    SourceStats {
        ssrc: s.ssrc,
        sender: s.sender,
        local: s.local,
        packets: if s.sender { Some(s.packet_count) } else { None },
        octets: if s.sender { Some(s.octet_count) } else { None },
        bitrate: if s.sender { Some(crate::source::bitrate_of(s)) } else { None },
        jitter: if remote_sender { Some(report_block_of(s, 0).jitter) } else { None },
        packets_lost: if remote_sender { Some(crate::source::packets_lost(s)) } else { None },
        clock_rate: match s.payload_type {
            Some(pt) if s.local || s.sender => clock_rate_of(rates, pt),
            _ => None,
        },
        rtp_from: if remote_sender { s.rtp_from } else { None },
        rtcp_from: if remote_sender { s.rtcp_from } else { None },
        sr: if s.sender { s.last_sr } else { None },
        sent_rb: if remote_sender { s.last_rb } else { None },
    }
}

/// Two regular RTCP packets of a session are never nearer to each other
/// than half the interval: the deadline that is set after a regular
/// packet was sent at `now` lies at least that far behind `now`, and with
/// a number from the upper half of the range at least the configured
/// shortest interval (half of it with reduced-size RTCP under AVPF).
pub proof fn lemma_sends_apart(
    v: SessionView,
    now: u64,
    ntp_now: u64,
    rnd: u32,
    later: u64,
    rnd2: u32,
)
    requires
        !feedback_alone(v),
        rtcp_sent(v, now, ntp_now, rnd).0.sources.len() > 0,
    ensures
        ({
            let sent = rtcp_sent(v, now, ntp_now, rnd).0;
            let next = armed(sent, later, rnd2);
            let due: int = next.next_rtcp_send->0 as int;
            &&& sent.next_rtcp_send is None
            &&& sent.last_rtcp_send == Some(now)
            &&& next.next_rtcp_send is Some
            &&& due == u64::MAX || now + rtcp_interval(sent) / 2 <= due
            &&& rnd2 >= 0x8000_0000 ==> due == u64::MAX || due >= now + shortest_interval(sent)
            &&& shortest_interval(sent) == (if v.profile == RtpProfile::Avpf && v.reduced_size_rtcp {
                v.min_rtcp_interval / 2
            } else {
                v.min_rtcp_interval
            })
        }),
{
    let sent = rtcp_sent(v, now, ntp_now, rnd).0;
    lemma_deadline_bounds(sent, later, rnd2);
}

/// One RTP session.
pub struct Session {
    sources: Vec<Source>,
    clock_rates: Vec<(u8, u32)>,
    held: Vec<Held>,
    next_hold_id: usize,
    recv_replies: Vec<RecvReply>,
    send_replies: Vec<SendReply>,
    reports: Vec<Report>,
    requests: Vec<KeyUnitRequest>,
    min_rtcp_interval: u64,
    profile: RtpProfile,
    reduced_size_rtcp: bool,
    rtcp_bandwidth: u64,
    internal_ssrc: Option<u32>,
    cname: String,
    bye_reason: Option<String>,
    next_rtcp_send: Option<u64>,
    last_rtcp_send: Option<u64>,
    early: bool,
    avg_rtcp_size: u64,
    sent_rtcp: bool,
}

impl View for Session {
    type V = SessionView;

    closed spec fn view(&self) -> SessionView {
        SessionView {
            sources: self.sources@,
            clock_rates: self.clock_rates@,
            held: self.held@,
            next_hold_id: self.next_hold_id,
            recv_replies: self.recv_replies@,
            send_replies: self.send_replies@,
            reports: self.reports@,
            requests: self.requests@,
            min_rtcp_interval: self.min_rtcp_interval,
            profile: self.profile,
            reduced_size_rtcp: self.reduced_size_rtcp,
            rtcp_bandwidth: self.rtcp_bandwidth,
            internal_ssrc: self.internal_ssrc,
            cname: self.cname@,
            bye_reason: match self.bye_reason {
                Some(r) => Some(r@),
                None => None,
            },
            next_rtcp_send: self.next_rtcp_send,
            last_rtcp_send: self.last_rtcp_send,
            early: self.early,
            avg_rtcp_size: self.avg_rtcp_size,
            sent_rtcp: self.sent_rtcp,
        }
    }
}

/// What holds of the state of every session.
pub open spec fn sound(v: SessionView) -> bool {
    &&& distinct(v.sources)
    &&& forall|i: int| 0 <= i < v.sources.len() ==> valid(#[trigger] v.sources[i])
    &&& ids_grow(v.held, v.next_hold_id)
    &&& recv_replies_end(v.recv_replies)
    &&& send_replies_end(v.send_replies)
}

/// A session without sources, with the canonical name `cname`.
pub open spec fn initial(cname: Seq<char>) -> SessionView {
    SessionView {
        sources: Seq::empty(),
        clock_rates: Seq::empty(),
        held: Seq::empty(),
        next_hold_id: 0,
        recv_replies: Seq::empty(),
        send_replies: Seq::empty(),
        reports: Seq::empty(),
        requests: Seq::empty(),
        min_rtcp_interval: RTCP_MIN_REPORT_INTERVAL,
        profile: RtpProfile::Avp,
        reduced_size_rtcp: false,
        rtcp_bandwidth: DEFAULT_RTCP_BANDWIDTH,
        internal_ssrc: None,
        cname,
        bye_reason: None,
        next_rtcp_send: None,
        last_rtcp_send: None,
        early: false,
        avg_rtcp_size: INITIAL_RTCP_SIZE,
        sent_rtcp: false,
    }
}

/// Draws a number with `rand::random`. Nothing is known of it.
#[verifier::external_body]
pub(crate) fn random_u32() -> u32 {
    rand::random::<u32>()
}

/// The hexadecimal digit of a number below 16.
pub open spec fn hex_digit(n: u32) -> Seq<char> {
    if n == 0 {
        "0"@
    } else if n == 1 {
        "1"@
    } else if n == 2 {
        "2"@
    } else if n == 3 {
        "3"@
    } else if n == 4 {
        "4"@
    } else if n == 5 {
        "5"@
    } else if n == 6 {
        "6"@
    } else if n == 7 {
        "7"@
    } else if n == 8 {
        "8"@
    } else if n == 9 {
        "9"@
    } else if n == 10 {
        "a"@
    } else if n == 11 {
        "b"@
    } else if n == 12 {
        "c"@
    } else if n == 13 {
        "d"@
    } else if n == 14 {
        "e"@
    } else {
        "f"@
    }
}

/// The last `digits` hexadecimal digits of a number.
pub open spec fn hex(n: u32, digits: nat) -> Seq<char>
    decreases digits,
{
    if digits == 0 {
        Seq::empty()
    } else {
        hex(n / 16, (digits - 1) as nat) + hex_digit(n % 16)
    }
}

/// The canonical name that a session makes of a number: `user`, the
/// number in eight hexadecimal digits, and `@rtpbin2`.
pub open spec fn cname_from(n: u32) -> Seq<char> {
    "user"@ + hex(n, 8) + "@rtpbin2"@
}

/// Computes `hex_digit`.
fn hex_digit_of(n: u32) -> (r: &'static str)
    requires
        n < 16,
    ensures
        r@ == hex_digit(n),
{
    if n == 0 {
        "0"
    } else if n == 1 {
        "1"
    } else if n == 2 {
        "2"
    } else if n == 3 {
        "3"
    } else if n == 4 {
        "4"
    } else if n == 5 {
        "5"
    } else if n == 6 {
        "6"
    } else if n == 7 {
        "7"
    } else if n == 8 {
        "8"
    } else if n == 9 {
        "9"
    } else if n == 10 {
        "a"
    } else if n == 11 {
        "b"
    } else if n == 12 {
        "c"
    } else if n == 13 {
        "d"
    } else if n == 14 {
        "e"
    } else {
        "f"
    }
}

/// Computes `cname_from`.
pub fn make_cname(n: u32) -> (r: String)
    ensures
        r@ == cname_from(n),
{
    let mut name: String = String::from_str("user");
    let mut shift: u32 = 32;
    proof {
        assert(name@ =~= "user"@ + hex(0, 0));
    }
    while shift > 0
        invariant
            shift <= 32,
            shift % 4 == 0,
            name@ == "user"@ + hex(
                if shift == 32 {
                    0
                } else {
                    n >> shift
                },
                ((32 - shift) / 4) as nat,
            ),
        decreases shift,
    {
        let ghost before: u32 = if shift == 32 { 0 } else { n >> shift };
        shift = shift - 4;
        let nibble: u32 = (n >> shift) & 0xf;
        proof {
            let after: u32 = n >> shift;
            assert(after / 16 == before && after % 16 == nibble) by (bit_vector)
                requires
                    shift <= 28,
                    shift % 4 == 0,
                    after == n >> shift,
                    nibble == (n >> shift) & 0xf,
                    before == (if shift == 28 {
                        0u32
                    } else {
                        n >> ((shift + 4) as u32)
                    }),
            ;
            assert(nibble < 16) by (bit_vector)
                requires
                    nibble == (n >> shift) & 0xf,
            ;
        }
        name.append(hex_digit_of(nibble));
        proof {
            assert(name@ =~= "user"@ + hex(n >> shift, ((32 - shift) / 4) as nat));
        }
    }
    proof {
        assert(n >> 0u32 == n) by (bit_vector);
    }
    name.append("@rtpbin2");
    name
}

impl Session {
    /// The session's invariant.
    pub open spec fn wf(&self) -> bool {
        sound(self@)
    }

    /// A session without sources, with the canonical name `cname`.
    pub fn with_cname(cname: &str) -> (r: Self)
        ensures
            r.wf(),
            r@ == initial(cname@),
    {
        Session {
            sources: Vec::new(),
            clock_rates: Vec::new(),
            held: Vec::new(),
            next_hold_id: 0,
            recv_replies: Vec::new(),
            send_replies: Vec::new(),
            reports: Vec::new(),
            requests: Vec::new(),
            min_rtcp_interval: RTCP_MIN_REPORT_INTERVAL,
            profile: RtpProfile::Avp,
            reduced_size_rtcp: false,
            rtcp_bandwidth: DEFAULT_RTCP_BANDWIDTH,
            internal_ssrc: None,
            cname: cname.to_owned(),
            bye_reason: None,
            next_rtcp_send: None,
            last_rtcp_send: None,
            early: false,
            avg_rtcp_size: INITIAL_RTCP_SIZE,
            sent_rtcp: false,
        }
    }

    /// A session without sources, with a canonical name that is made of a
    /// number drawn at random.
    pub fn new() -> (r: Self)
        ensures
            r.wf(),
            r@ == initial(r@.cname),
            exists|n: u32| r@.cname == #[trigger] cname_from(n),
    {
        let name = make_cname(random_u32());
        Session::with_cname(name.as_str())
    }

    /// Whether the schedule of RTCP packets has not begun yet: until then
    /// the session can be configured.
    pub fn can_configure(&self) -> (r: bool)
        ensures
            r == configurable(self@),
    {
        self.last_rtcp_send.is_none()
    }

    /// Sets the shortest time between two regular RTCP reports, in
    /// nanoseconds. Nothing changes once the schedule of RTCP packets has
    /// begun.
    pub fn set_min_rtcp_interval(&mut self, interval: u64)
        ensures
            final(self)@ == (if configurable(old(self)@) {
                SessionView { min_rtcp_interval: interval, ..old(self)@ }
            } else {
                old(self)@
            }),
    {
        if self.last_rtcp_send.is_none() {
            self.min_rtcp_interval = interval;
        }
    }

    /// Sets the profile. Nothing changes once the schedule of RTCP packets
    /// has begun.
    pub fn set_profile(&mut self, profile: RtpProfile)
        ensures
            final(self)@ == (if configurable(old(self)@) {
                SessionView { profile, ..old(self)@ }
            } else {
                old(self)@
            }),
    {
        if self.last_rtcp_send.is_none() {
            self.profile = profile;
        }
    }

    /// Sets whether early feedback may go out without a report. Nothing
    /// changes once the schedule of RTCP packets has begun.
    pub fn set_reduced_size_rtcp(&mut self, reduced_size_rtcp: bool)
        ensures
            final(self)@ == (if configurable(old(self)@) {
                SessionView { reduced_size_rtcp, ..old(self)@ }
            } else {
                old(self)@
            }),
    {
        if self.last_rtcp_send.is_none() {
            self.reduced_size_rtcp = reduced_size_rtcp;
        }
    }

    /// Sets the bandwidth that RTCP may use, in bytes per second.
    pub fn set_rtcp_bandwidth(&mut self, bandwidth: u64)
        ensures
            final(self)@ == (SessionView { rtcp_bandwidth: bandwidth, ..old(self)@ }),
    {
        self.rtcp_bandwidth = bandwidth;
    }

    /// Sets the clock rate of a payload type.
    pub fn set_pt_clock_rate(&mut self, pt: u8, clock_rate: u32)
        ensures
            final(self)@ == (SessionView {
                clock_rates: seq![(pt, clock_rate)] + old(self)@.clock_rates,
                ..old(self)@
            }),
            clock_rate_of(final(self)@.clock_rates, pt) == Some(clock_rate),
            forall|other: u8|
                other != pt ==> clock_rate_of(final(self)@.clock_rates, other) == clock_rate_of(
                    old(self)@.clock_rates,
                    other,
                ),
    {
        self.clock_rates.insert(0, (pt, clock_rate));
        proof {
            let n = self.clock_rates@;
            assert(n =~= seq![(pt, clock_rate)] + old(self).clock_rates@);
            assert(n.skip(1) =~= old(self).clock_rates@);
        }
    }

    /// The clock rate of a payload type, where it was set.
    pub fn clock_rate_from_pt(&self, pt: u8) -> (r: Option<u32>)
        ensures
            r == clock_rate_of(self@.clock_rates, pt),
    {
        let mut i: usize = 0;
        proof {
            assert(self.clock_rates@.skip(0) =~= self.clock_rates@);
        }
        while i < self.clock_rates.len()
            invariant
                i <= self.clock_rates.len(),
                clock_rate_of(self.clock_rates@, pt) == clock_rate_of(
                    self.clock_rates@.skip(i as int),
                    pt,
                ),
            decreases self.clock_rates.len() - i,
        {
            proof {
                assert(self.clock_rates@.skip(i as int).skip(1) =~= self.clock_rates@.skip(i + 1));
            }
            if self.clock_rates[i].0 == pt {
                return Some(self.clock_rates[i].1);
            }
            i += 1;
        }
        None
    }

    /// The canonical name of this participant.
    pub fn cname(&self) -> (r: &str)
        ensures
            r@ == self@.cname,
    {
        self.cname.as_str()
    }

    /// The ssrc under which the session reports when it sends nothing.
    pub fn internal_ssrc(&self) -> (r: Option<u32>)
        ensures
            r == self@.internal_ssrc,
    {
        self.internal_ssrc
    }

    /// Takes in an RTP packet that arrived from `from` at `now`
    /// (nanoseconds) and tells what to do with it.
    ///
    /// The replies to one packet come one per call. While replies are owed
    /// from an earlier call, the next of them is returned, whatever is
    /// handed in; else the packet is taken in (`received`) and its first
    /// reply returned.
    #[verifier::rlimit(50)]
    pub fn handle_recv(&mut self, packet: &RtpPacket, from: Option<Address>, now: u64) -> (r:
        RecvReply)
        requires
            old(self).wf(),
        ensures
            final(self).wf(),
            old(self)@.recv_replies.len() > 0 ==> r == old(self)@.recv_replies[0] && final(self)@ == (
            SessionView { recv_replies: old(self)@.recv_replies.skip(1), ..old(self)@ }),
            old(self)@.recv_replies.len() == 0 ==> r == received(old(self)@, *packet, from, now).1[0]
                && final(self)@ == (SessionView {
                recv_replies: received(old(self)@, *packet, from, now).1.skip(1),
                ..received(old(self)@, *packet, from, now).0
            }),
    {
        if self.recv_replies.len() > 0 {
            proof {
                let r = self.recv_replies@;
                assert(r.remove(0) =~= r.skip(1));
                assert forall|i: int| 0 <= i < r.skip(1).len() implies (ends_recv(
                    #[trigger] r.skip(1)[i],
                ) <==> i == r.skip(1).len() - 1) by {
                    assert(r.skip(1)[i] == r[i + 1]);
                }
            }
            return self.recv_replies.remove(0);
        }
        proof {
            lemma_recv_replies_end(self@, *packet, from, now);
            lemma_received_sound(self@, *packet, from, now);
        }
        let mut replies: Vec<RecvReply> = Vec::new();
        let i = self.find(packet.ssrc);
        let source = if i < self.sources.len() {
            let mut s = self.sources[i];
            if s.local {
                replies.push(RecvReply::Ignore);
                self.recv_replies = replies;
                proof {
                    assert(self.recv_replies@ =~= received(old(self)@, *packet, from, now).1.skip(1));
                }
                return RecvReply::SsrcCollision(packet.ssrc);
            }
            let elsewhere = match (from, s.rtp_from) {
                (Some(a), Some(b)) => a.ip != b.ip || a.port != b.port,
                _ => false,
            };
            if elsewhere {
                proof {
                    assert(self.recv_replies@ =~= received(old(self)@, *packet, from, now).1.skip(1));
                }
                return RecvReply::Ignore;
            }
            if s.rtp_from.is_none() {
                s.rtp_from = from;
            }
            s
        } else {
            let mut s = Source::new(packet.ssrc, false);
            s.rtp_from = from;
            self.sources.push(s);
            self.reconsider();
            replies.push(RecvReply::NewSsrc(packet.ssrc, packet.payload_type));
            s
        };
        proof {
            assert(replies@ =~= if i < old(self).sources@.len() {
                Seq::<RecvReply>::empty()
            } else {
                seq![RecvReply::NewSsrc(packet.ssrc, packet.payload_type)]
            });
        }
        self.take_in(i, source, packet, now, replies)
    }

    /// Lets the source at `i`, which is `s`, take in a packet, and files
    /// the replies behind those in `replies`.
    #[verifier::rlimit(50)]
    fn take_in(
        &mut self,
        i: usize,
        s: Source,
        packet: &RtpPacket,
        now: u64,
        replies: Vec<RecvReply>,
    ) -> (r: RecvReply)
        requires
            i < old(self).sources@.len(),
        ensures
            r == taken(old(self)@, i as int, s, *packet, now, replies@).1[0],
            final(self)@ == (SessionView {
                recv_replies: taken(old(self)@, i as int, s, *packet, now, replies@).1.skip(1),
                ..taken(old(self)@, i as int, s, *packet, now, replies@).0
            }),
    {
        let mut replies = replies;
        let ghost first = replies@;
        let rate = self.clock_rate_from_pt(packet.payload_type);
        let mut source = s;
        let verdict = source.receive(packet, now, rate);
        self.sources[i] = source;
        let id = self.next_hold_id;
        match verdict {
            Verdict::Hold => {
                if id < usize::MAX {
                    self.held.push(Held { ssrc: packet.ssrc, id });
                    self.next_hold_id = id + 1;
                    replies.push(RecvReply::Hold(id));
                } else {
                    replies.push(RecvReply::Ignore);
                }
            },
            Verdict::Restart => {
                settle(&mut self.held, packet.ssrc, false, &mut replies);
                if id < usize::MAX {
                    self.held.push(Held { ssrc: packet.ssrc, id });
                    self.next_hold_id = id + 1;
                    replies.push(RecvReply::Hold(id));
                } else {
                    replies.push(RecvReply::Ignore);
                }
            },
            Verdict::Validated => {
                settle(&mut self.held, packet.ssrc, true, &mut replies);
                replies.push(RecvReply::Passthrough);
            },
            Verdict::Pass => {
                replies.push(RecvReply::Passthrough);
            },
            Verdict::Ignore => {
                replies.push(RecvReply::Ignore);
            },
        }
        proof {
            assert(replies@ =~= taken(old(self)@, i as int, s, *packet, now, first).1);
            assert(replies@.remove(0) =~= replies@.skip(1));
        }
        let r = replies.remove(0);
        self.recv_replies = replies;
        r
    }

    /// Takes in an RTP packet that arrived from `from` at `now` and
    /// fetches all replies to it, those still owed from before where there
    /// are any. The last reply is `Hold`, `Ignore` or `Passthrough`, and no
    /// other is.
    #[verifier::rlimit(50)]
    pub fn handle_recv_all(&mut self, packet: &RtpPacket, from: Option<Address>, now: u64) -> (r:
        Vec<RecvReply>)
        requires
            old(self).wf(),
        ensures
            final(self).wf(),
            r@ == replies_to(old(self)@, *packet, from, now),
            final(self)@ == session_after(old(self)@, *packet, from, now),
            r@.len() > 0,
            recv_replies_end(r@),
    {
        let ghost all = replies_to(self@, *packet, from, now);
        let ghost target = session_after(self@, *packet, from, now);
        proof {
            lemma_recv_replies_end(self@, *packet, from, now);
        }
        let mut out: Vec<RecvReply> = Vec::new();
        let first = self.handle_recv(packet, from, now);
        out.push(first);
        proof {
            assert(out@ + self@.recv_replies =~= all);
        }
        while self.recv_replies.len() > 0
            invariant
                self.wf(),
                out@ + self@.recv_replies == all,
                self@ == (SessionView { recv_replies: self@.recv_replies, ..target }),
            decreases self.recv_replies.len(),
        {
            let ghost owed = self@.recv_replies;
            let next = self.handle_recv(packet, from, now);
            out.push(next);
            proof {
                assert(out@ + self@.recv_replies =~= all);
            }
        }
        proof {
            assert(self@.recv_replies =~= Seq::<RecvReply>::empty());
            assert(out@ =~= all);
        }
        out
    }

    /// Takes in an RTP packet that is about to be sent at `now` and tells
    /// whether it is to be sent, after all replies to it were fetched:
    /// those still owed from before where there are any.
    #[verifier::rlimit(50)]
    pub fn handle_send_all(&mut self, packet: &RtpPacket, now: u64) -> (r: Vec<SendReply>)
        requires
            old(self).wf(),
        ensures
            final(self).wf(),
            r@ == send_replies_to(old(self)@, *packet, now),
            final(self)@ == session_after_send(old(self)@, *packet, now),
            r@.len() > 0,
            send_replies_end(r@),
    {
        let ghost all = send_replies_to(self@, *packet, now);
        let ghost target = session_after_send(self@, *packet, now);
        proof {
            lemma_send_replies_end(self@, *packet, now);
        }
        let mut out: Vec<SendReply> = Vec::new();
        let first = self.handle_send(packet, now);
        out.push(first);
        proof {
            assert(out@ + self@.send_replies =~= all);
        }
        while self.send_replies.len() > 0
            invariant
                self.wf(),
                out@ + self@.send_replies == all,
                self@ == (SessionView { send_replies: self@.send_replies, ..target }),
            decreases self.send_replies.len(),
        {
            let next = self.handle_send(packet, now);
            out.push(next);
            proof {
                assert(out@ + self@.send_replies =~= all);
            }
        }
        proof {
            assert(self@.send_replies =~= Seq::<SendReply>::empty());
            assert(out@ =~= all);
        }
        out
    }

    /// Takes in an RTP packet that is about to be sent at `now`
    /// (nanoseconds) and tells what to do with it.
    ///
    /// The replies to one packet come one per call. While replies are owed
    /// from an earlier call, the next of them is returned, whatever is
    /// handed in; else the packet is taken in (`sent`) and its first reply
    /// returned.
    #[verifier::rlimit(50)]
    pub fn handle_send(&mut self, packet: &RtpPacket, now: u64) -> (r: SendReply)
        requires
            old(self).wf(),
        ensures
            final(self).wf(),
            old(self)@.send_replies.len() > 0 ==> r == old(self)@.send_replies[0] && final(self)@ == (
            SessionView { send_replies: old(self)@.send_replies.skip(1), ..old(self)@ }),
            old(self)@.send_replies.len() == 0 ==> r == sent(old(self)@, *packet, now).1[0]
                && final(self)@ == (SessionView {
                send_replies: sent(old(self)@, *packet, now).1.skip(1),
                ..sent(old(self)@, *packet, now).0
            }),
    {
        if self.send_replies.len() > 0 {
            proof {
                let r = self.send_replies@;
                assert(r.remove(0) =~= r.skip(1));
                assert forall|i: int| 0 <= i < r.skip(1).len() implies (ends_send(
                    #[trigger] r.skip(1)[i],
                ) <==> i == r.skip(1).len() - 1) by {
                    assert(r.skip(1)[i] == r[i + 1]);
                }
            }
            return self.send_replies.remove(0);
        }
        proof {
            lemma_send_replies_end(self@, *packet, now);
        }
        let i = self.find(packet.ssrc);
        if i < self.sources.len() {
            let mut s = self.sources[i];
            if !s.local {
                self.send_replies.push(SendReply::Drop);
                proof {
                    assert(self.send_replies@ =~= sent(old(self)@, *packet, now).1.skip(1));
                }
                return SendReply::SsrcCollision(packet.ssrc);
            }
            match s.state {
                SourceState::Bye => {
                    proof {
                        assert(self.send_replies@ =~= sent(old(self)@, *packet, now).1.skip(1));
                    }
                    SendReply::Drop
                },
                _ => {
                    s.send(packet, now);
                    self.sources[i] = s;
                    proof {
                        assert(self.send_replies@ =~= sent(old(self)@, *packet, now).1.skip(1));
                        assert(self.sources@ =~= old(self)@.sources.update(i as int, s));
                    }
                    SendReply::Passthrough
                },
            }
        } else {
            let mut s = Source::new(packet.ssrc, true);
            s.send(packet, now);
            self.sources.push(s);
            self.reconsider();
            self.send_replies.push(SendReply::Passthrough);
            proof {
                assert(self.send_replies@ =~= sent(old(self)@, *packet, now).1.skip(1));
            }
            SendReply::NewSsrc(packet.ssrc, packet.payload_type)
        }
    }

    /// Takes in a compound RTCP packet of `size` bytes that arrived from
    /// `from` at `now` (nanoseconds; `ntp_now` is the same instant as a
    /// 64-bit NTP timestamp) and tells what it asks of the caller.
    #[verifier::rlimit(50)]
    pub fn handle_rtcp_recv(
        &mut self,
        rtcp: &Vec<RtcpPacket>,
        size: usize,
        from: Option<Address>,
        now: u64,
        ntp_now: u64,
    ) -> (r: Vec<RtcpRecvReply>)
        requires
            old(self).wf(),
        ensures
            final(self).wf(),
            final(self)@ == rtcp_received(old(self)@, views(rtcp@), size, from, now, ntp_now).0,
            notes(r@) == rtcp_received(old(self)@, views(rtcp@), size, from, now, ntp_now).1,
    {
        let mut replies: Vec<RtcpRecvReply> = Vec::new();
        let mut i: usize = 0;
        proof {
            assert(notes(replies@) =~= Seq::<RtcpNote>::empty());
        }
        while i < rtcp.len()
            invariant
                i <= rtcp.len(),
                self.wf(),
                self@ == rtcp_steps(old(self)@, views(rtcp@).take(i as int), from, now, ntp_now).0,
                notes(replies@) == rtcp_steps(
                    old(self)@,
                    views(rtcp@).take(i as int),
                    from,
                    now,
                    ntp_now,
                ).1,
            decreases rtcp.len() - i,
        {
            proof {
                assert(views(rtcp@).take(i + 1).drop_last() =~= views(rtcp@).take(i as int));
                assert(views(rtcp@).take(i + 1).last() == rtcp@[i as int]@);
            }
            self.take_rtcp(&rtcp[i], from, now, ntp_now, &mut replies);
            i += 1;
        }
        proof {
            assert(views(rtcp@).take(rtcp@.len() as int) =~= views(rtcp@));
        }
        self.note_size(size);
        self.reconsider();
        let ghost before = replies@;
        replies.push(RtcpRecvReply::TimerReconsideration);
        proof {
            assert(notes(replies@) =~= notes(before).push(RtcpNote::TimerReconsideration));
        }
        replies
    }

    /// Takes in one RTCP packet and files its replies behind those in `replies`.
    #[verifier::rlimit(50)]
    fn take_rtcp(
        &mut self,
        packet: &RtcpPacket,
        from: Option<Address>,
        now: u64,
        ntp_now: u64,
        replies: &mut Vec<RtcpRecvReply>,
    )
        requires
            old(self).wf(),
        ensures
            final(self).wf(),
            final(self)@ == rtcp_step(old(self)@, packet@, from, now, ntp_now).0,
            notes(final(replies)@) == notes(old(replies)@) + rtcp_step(
                old(self)@,
                packet@,
                from,
                now,
                ntp_now,
            ).1,
    {
        let ghost before = replies@;
        proof {
            assert(notes(before) + Seq::<RtcpNote>::empty() =~= notes(before));
        }
        match packet {
            RtcpPacket::Sr { ssrc, info, report_blocks } => {
                if self.local_at(*ssrc) {
                    replies.push(RtcpRecvReply::SsrcCollision(*ssrc));
                    proof {
                        assert(notes(replies@) =~= notes(before) + seq![
                            RtcpNote::SsrcCollision(*ssrc),
                        ]);
                    }
                } else {
                    self.file_reports(*ssrc, report_blocks, now, ntp_now);
                    let i = self.remote(*ssrc, from, replies);
                    let ghost then = self@.sources;
                    self.sources[i].sender = true;
                    self.sources[i].last_sr = Some(*info);
                    self.sources[i].last_sr_time = Some(now);
                    let ghost mid = replies@;
                    replies.push(
                        RtcpRecvReply::NewRtpNtp((*ssrc, info.rtp_timestamp, info.ntp_timestamp)),
                    );
                    proof {
                        assert(self@.sources =~= then.update(i as int, self@.sources[i as int]));
                        assert(notes(replies@) =~= notes(mid).push(
                            RtcpNote::NewRtpNtp(*ssrc, info.rtp_timestamp, info.ntp_timestamp),
                        ));
                        assert(notes(replies@) =~= notes(before) + rtcp_step(
                            old(self)@,
                            packet@,
                            from,
                            now,
                            ntp_now,
                        ).1);
                    }
                }
            },
            RtcpPacket::Rr { ssrc, report_blocks } => {
                if self.local_at(*ssrc) {
                    replies.push(RtcpRecvReply::SsrcCollision(*ssrc));
                    proof {
                        assert(notes(replies@) =~= notes(before) + seq![
                            RtcpNote::SsrcCollision(*ssrc),
                        ]);
                    }
                } else {
                    self.file_reports(*ssrc, report_blocks, now, ntp_now);
                    let _ = self.remote(*ssrc, from, replies);
                }
            },
            RtcpPacket::Sdes { ssrc, item, value } => {
                if *item == SDES_CNAME && !self.local_at(*ssrc) {
                    let _ = self.remote(*ssrc, from, replies);
                    let ghost mid = replies@;
                    replies.push(RtcpRecvReply::NewCName((value.clone(), *ssrc)));
                    proof {
                        assert(notes(replies@) =~= notes(mid).push(
                            RtcpNote::NewCName(value@, *ssrc),
                        ));
                        assert(notes(replies@) =~= notes(before) + rtcp_step(
                            old(self)@,
                            packet@,
                            from,
                            now,
                            ntp_now,
                        ).1);
                    }
                }
            },
            RtcpPacket::Bye { ssrcs } => {
                self.depart(ssrcs);
            },
            RtcpPacket::PayloadFeedback { format, sender_ssrc, media_ssrc, ssrcs } => {
                if *format == PSFB_PLI {
                    if self.local_sender_at(*media_ssrc) {
                        let mut asked: Vec<u32> = Vec::new();
                        asked.push(*media_ssrc);
                        replies.push(RtcpRecvReply::RequestKeyUnit { ssrcs: asked, fir: false });
                        proof {
                            assert(asked@ =~= seq![*media_ssrc]);
                            assert(notes(replies@) =~= notes(before) + seq![
                                RtcpNote::RequestKeyUnit { ssrcs: seq![*media_ssrc], fir: false },
                            ]);
                        }
                    }
                } else if *format == PSFB_FIR {
                    let asked = self.asked_of(ssrcs);
                    if asked.len() > 0 {
                        let ghost a = asked@;
                        replies.push(RtcpRecvReply::RequestKeyUnit { ssrcs: asked, fir: true });
                        proof {
                            assert(notes(replies@) =~= notes(before) + seq![
                                RtcpNote::RequestKeyUnit { ssrcs: a, fir: true },
                            ]);
                        }
                    }
                }
            },
            RtcpPacket::Other => {},
        }
    }

    /// Whether `ssrc` is a source of this engine.
    fn local_at(&self, ssrc: u32) -> (r: bool)
        ensures
            r == is_local(self@.sources, ssrc),
    {
        let i = self.find(ssrc);
        i < self.sources.len() && self.sources[i].local
    }

    /// Whether `ssrc` is a source of this engine that sends.
    fn local_sender_at(&self, ssrc: u32) -> (r: bool)
        ensures
            r == is_local_sender(self@.sources, ssrc),
    {
        let i = self.find(ssrc);
        i < self.sources.len() && self.sources[i].local && self.sources[i].sender
    }

    /// Makes the remote source `ssrc` known and notes that it was heard
    /// from `from`.
    #[verifier::rlimit(50)]
    fn remote(&mut self, ssrc: u32, from: Option<Address>, replies: &mut Vec<RtcpRecvReply>) -> (i:
        usize)
        requires
            old(self).wf(),
        ensures
            final(self).wf(),
            i == position(old(self)@.sources, ssrc),
            i < final(self)@.sources.len(),
            final(self)@ == (SessionView {
                sources: with_remote(old(self)@.sources, ssrc, from).0,
                ..old(self)@
            }),
            notes(final(replies)@) == notes(old(replies)@) + with_remote(
                old(self)@.sources,
                ssrc,
                from,
            ).1,
    {
        let ghost before = replies@;
        let i = self.find(ssrc);
        let mut s = if i < self.sources.len() {
            proof {
                assert(notes(before) + Seq::<RtcpNote>::empty() =~= notes(before));
            }
            self.sources[i]
        } else {
            replies.push(RtcpRecvReply::NewSsrc(ssrc));
            proof {
                assert(notes(replies@) =~= notes(before) + seq![RtcpNote::NewSsrc(ssrc)]);
            }
            Source::new(ssrc, false)
        };
        let fresh = match s.state {
            SourceState::Initial => s.max_seq.is_none(),
            _ => false,
        };
        if fresh {
            s.state = SourceState::Active;
        }
        if from.is_some() {
            s.rtcp_from = from;
        }
        if i < self.sources.len() {
            self.sources[i] = s;
            proof {
                assert(self@.sources =~= old(self)@.sources.update(i as int, s));
            }
        } else {
            self.sources.push(s);
        }
        i
    }

    /// Files the report blocks that `from` sent.
    fn file_reports(&mut self, from: u32, blocks: &Vec<ReportBlock>, now: u64, ntp_now: u64)
        ensures
            final(self)@ == (SessionView {
                reports: filed(old(self)@.reports, old(self)@.sources, from, blocks@, now, ntp_now),
                ..old(self)@
            }),
    {
        let mut i: usize = 0;
        while i < blocks.len()
            invariant
                i <= blocks.len(),
                self@ == (SessionView {
                    reports: filed(
                        old(self)@.reports,
                        old(self)@.sources,
                        from,
                        blocks@.take(i as int),
                        now,
                        ntp_now,
                    ),
                    ..old(self)@
                }),
            decreases blocks.len() - i,
        {
            proof {
                assert(blocks@.take(i + 1).drop_last() =~= blocks@.take(i as int));
            }
            let rb = blocks[i];
            if self.local_at(rb.ssrc) {
                put_report(
                    &mut self.reports,
                    Report {
                        from,
                        block: ReceivedRb { rb, receive_time: now, receive_ntp_time: ntp_now },
                    },
                );
            }
            i += 1;
        }
        proof {
            assert(blocks@.take(blocks@.len() as int) =~= blocks@);
        }
    }

    /// Marks the remote sources among `ssrcs` as gone.
    fn depart(&mut self, ssrcs: &Vec<u32>)
        requires
            old(self).wf(),
        ensures
            final(self).wf(),
            final(self)@ == (SessionView {
                sources: departed(old(self)@.sources, ssrcs@),
                ..old(self)@
            }),
    {
        let mut i: usize = 0;
        while i < ssrcs.len()
            invariant
                i <= ssrcs.len(),
                self.wf(),
                self@ == (SessionView {
                    sources: departed(old(self)@.sources, ssrcs@.take(i as int)),
                    ..old(self)@
                }),
            decreases ssrcs.len() - i,
        {
            proof {
                assert(ssrcs@.take(i + 1).drop_last() =~= ssrcs@.take(i as int));
            }
            let k = self.find(ssrcs[i]);
            if k < self.sources.len() && !self.sources[k].local {
                let ghost before = self@.sources;
                self.sources[k].state = SourceState::Bye;
                proof {
                    assert(self@.sources =~= before.update(
                        k as int,
                        Source { state: SourceState::Bye, ..before[k as int] },
                    ));
                }
            }
            i += 1;
        }
        proof {
            assert(ssrcs@.take(ssrcs@.len() as int) =~= ssrcs@);
        }
    }

    /// Those ssrcs of the list that are local senders.
    fn asked_of(&self, ssrcs: &Vec<u32>) -> (r: Vec<u32>)
        ensures
            r@ == local_senders_among(self@.sources, ssrcs@),
    {
        let mut r: Vec<u32> = Vec::new();
        let mut i: usize = 0;
        while i < ssrcs.len()
            invariant
                i <= ssrcs.len(),
                r@ == local_senders_among(self@.sources, ssrcs@.take(i as int)),
            decreases ssrcs.len() - i,
        {
            proof {
                assert(ssrcs@.take(i + 1).drop_last() =~= ssrcs@.take(i as int));
            }
            if self.local_sender_at(ssrcs[i]) {
                r.push(ssrcs[i]);
            }
            i += 1;
        }
        proof {
            assert(ssrcs@.take(ssrcs@.len() as int) =~= ssrcs@);
        }
        r
    }

    /// Marks the local source `ssrc` as leaving, for the given reason. The
    /// goodbye goes out with the next RTCP packet. Nothing changes where
    /// `ssrc` is no local source.
    pub fn mark_bye(&mut self, ssrc: u32, reason: &str)
        requires
            old(self).wf(),
        ensures
            final(self).wf(),
            is_local(old(self)@.sources, ssrc) ==> final(self)@ == reconsidered(
                SessionView {
                    sources: old(self)@.sources.update(
                        position(old(self)@.sources, ssrc),
                        Source {
                            state: SourceState::Bye,
                            ..old(self)@.sources[position(old(self)@.sources, ssrc)]
                        },
                    ),
                    bye_reason: Some(reason@),
                    ..old(self)@
                },
            ),
            !is_local(old(self)@.sources, ssrc) ==> final(self)@ == old(self)@,
    {
        let i = self.find(ssrc);
        if i < self.sources.len() && self.sources[i].local {
            self.sources[i].state = SourceState::Bye;
            self.bye_reason = Some(reason.to_owned());
            self.reconsider();
            proof {
                assert(self@.sources =~= old(self)@.sources.update(
                    i as int,
                    Source { state: SourceState::Bye, ..old(self)@.sources[i as int] },
                ));
            }
        }
    }

    /// Marks the local senders but the internal one as leaving.
    #[verifier::rlimit(50)]
    fn part(&mut self)
        requires
            old(self).wf(),
        ensures
            final(self).wf(),
            final(self)@ == (SessionView {
                sources: parting(old(self)@.sources, old(self)@.internal_ssrc),
                ..old(self)@
            }),
    {
        let mut i: usize = 0;
        while i < self.sources.len()
            invariant
                i <= self.sources.len(),
                self.sources@.len() == old(self).sources@.len(),
                self@ == (SessionView { sources: self.sources@, ..old(self)@ }),
                forall|j: int|
                    0 <= j < i ==> #[trigger] self.sources@[j] == parting(
                        old(self)@.sources,
                        old(self)@.internal_ssrc,
                    )[j],
                forall|j: int|
                    i <= j < self.sources@.len() ==> #[trigger] self.sources@[j] == old(
                        self,
                    ).sources@[j],
            decreases self.sources.len() - i,
        {
            let s = self.sources[i];
            let internal = match self.internal_ssrc {
                Some(x) => x == s.ssrc,
                None => false,
            };
            if s.local && s.sender && !internal {
                self.sources[i].state = SourceState::Bye;
            }
            i += 1;
        }
        proof {
            let p = parting(old(self)@.sources, old(self)@.internal_ssrc);
            assert(self.sources@ =~= p);
            assert forall|j: int| 0 <= j < p.len() implies (#[trigger] p[j]).ssrc == old(
                self,
            ).sources@[j].ssrc && valid(p[j]) by {
                assert(valid(old(self).sources@[j]));
            }
            assert(distinct(p)) by {
                assert forall|a: int, b: int| 0 <= a < b < p.len() implies (#[trigger] p[a]).ssrc != (
                #[trigger] p[b]).ssrc by {
                    assert(old(self).sources@[a].ssrc != old(self).sources@[b].ssrc);
                }
            }
        }
    }

    /// Schedules the goodbye of the session at `now`, for the given reason.
    pub fn schedule_bye(&mut self, reason: &str, now: u64)
        requires
            old(self).wf(),
        ensures
            final(self).wf(),
            final(self)@ == bye_scheduled(old(self)@, reason@, now),
    {
        self.part();
        self.bye_reason = Some(reason.to_owned());
        self.next_rtcp_send = Some(now);
        self.early = true;
    }

    /// Whether some local source stands against a goodbye of the session.
    fn held_by(&self, sender: bool) -> (r: bool)
        ensures
            r == session_held(self@.sources, self@.internal_ssrc, sender),
    {
        let mut i: usize = 0;
        while i < self.sources.len()
            invariant
                i <= self.sources.len(),
                forall|j: int|
                    0 <= j < i ==> !holds_session(
                        #[trigger] self.sources@[j],
                        self.internal_ssrc,
                        sender,
                    ),
            decreases self.sources.len() - i,
        {
            let s = self.sources[i];
            let internal = match self.internal_ssrc {
                Some(x) => x == s.ssrc,
                None => false,
            };
            let gone = match s.state {
                SourceState::Bye => true,
                _ => false,
            };
            if s.local && s.sender == sender && !gone && !internal {
                return true;
            }
            i += 1;
        }
        false
    }

    /// Takes note at `now` that the streams that this engine sends have
    /// ended. Tells whether the goodbye of the session was scheduled.
    pub fn handle_send_eos(&mut self, now: u64) -> (r: bool)
        requires
            old(self).wf(),
        ensures
            final(self).wf(),
            final(self)@ == send_ended(old(self)@, now),
            r == !session_held(old(self)@.sources, old(self)@.internal_ssrc, false),
    {
        let held = self.held_by(false);
        proof {
            reveal_strlit("End of Stream");
        }
        if held {
            self.part();
            self.bye_reason = Some("End of Stream".to_owned());
        } else {
            self.schedule_bye("End of Stream", now);
        }
        !held
    }

    /// Takes note at `now` that the streams that this engine receives have
    /// ended. Tells whether the goodbye of the session was scheduled.
    pub fn handle_recv_eos(&mut self, now: u64) -> (r: bool)
        requires
            old(self).wf(),
        ensures
            final(self).wf(),
            final(self)@ == recv_ended(old(self)@, now),
            r == !session_held(old(self)@.sources, old(self)@.internal_ssrc, true),
    {
        let held = self.held_by(true);
        if !held {
            self.schedule_bye("End of stream", now);
        }
        !held
    }

    /// Asks the remote sender `ssrc` for a key frame. The request goes out
    /// with the next RTCP packet.
    pub fn request_remote_key_unit(&mut self, now: u64, kind: KeyUnitRequestType, ssrc: u32) -> (r:
        Vec<RequestRemoteKeyUnitReply>)
        requires
            old(self).wf(),
        ensures
            final(self).wf(),
            final(self)@ == key_unit_requested(old(self)@, now, kind, ssrc),
            r@ == seq![RequestRemoteKeyUnitReply::TimerReconsideration],
    {
        let request = KeyUnitRequest { ssrc, kind };
        let mut found = false;
        let mut i: usize = 0;
        while i < self.requests.len()
            invariant
                i <= self.requests.len(),
                found == exists|j: int| 0 <= j < i && #[trigger] self.requests@[j] == request,
            decreases self.requests.len() - i,
        {
            if self.requests[i] == request {
                found = true;
            }
            i += 1;
        }
        if !found {
            self.requests.push(request);
        }
        match self.profile {
            RtpProfile::Avpf => {
                self.next_rtcp_send = match self.next_rtcp_send {
                    Some(t) if t <= now => Some(t),
                    _ => Some(now),
                };
                self.early = true;
            },
            RtpProfile::Avp => {},
        }
        let mut r: Vec<RequestRemoteKeyUnitReply> = Vec::new();
        r.push(RequestRemoteKeyUnitReply::TimerReconsideration);
        r
    }

    /// Number of sources that have not left, and of senders and of local
    /// senders among them.
    fn census(&self) -> (r: (u64, u64, u64))
        ensures
            r.0 == members(self@.sources),
            r.1 == senders(self@.sources, false),
            r.2 == senders(self@.sources, true),
            r.1 <= r.0,
    {
        let mut m: u64 = 0;
        let mut n: u64 = 0;
        let mut l: u64 = 0;
        let mut i: usize = 0;
        while i < self.sources.len()
            invariant
                i <= self.sources.len(),
                m == members(self.sources@.take(i as int)),
                n == senders(self.sources@.take(i as int), false),
                l == senders(self.sources@.take(i as int), true),
                l <= n <= m <= i,
            decreases self.sources.len() - i,
        {
            proof {
                assert(self.sources@.take(i + 1).drop_last() =~= self.sources@.take(i as int));
            }
            let s = self.sources[i];
            let gone = match s.state {
                SourceState::Bye => true,
                _ => false,
            };
            if !gone {
                m += 1;
                if s.sender {
                    n += 1;
                    if s.local {
                        l += 1;
                    }
                }
            }
            i += 1;
        }
        proof {
            assert(self.sources@.take(self.sources@.len() as int) =~= self.sources@);
        }
        (m, n, l)
    }

    /// The interval between regular RTCP packets before it is randomized,
    /// in nanoseconds.
    #[verifier::rlimit(50)]
    pub fn interval(&self) -> (r: u64)
        ensures
            r == rtcp_interval(self@),
    {
        let (m, s, l) = self.census();
        let m: u64 = if m == 0 { 1 } else { m };
        let (bandwidth, n): (u64, u64) = if s as u128 * 4 <= m as u128 {
            if l > 0 {
                (self.rtcp_bandwidth / 4, s)
            } else {
                (((self.rtcp_bandwidth as u128 * 3) / 4) as u64, m - s)
            }
        } else {
            (self.rtcp_bandwidth, m)
        };
        let a: u64 = if self.sent_rtcp { self.min_rtcp_interval } else { self.min_rtcp_interval / 2 };
        let reduced = match self.profile {
            RtpProfile::Avpf => self.reduced_size_rtcp,
            RtpProfile::Avp => false,
        };
        let shortest: u64 = if reduced { a / 2 } else { a };
        if bandwidth == 0 {
            return shortest;
        }
        assert(self.avg_rtcp_size * n <= 0xffff_ffff_ffff_ffff * 0xffff_ffff_ffff_ffff)
            by (nonlinear_arith)
            requires
                0 <= self.avg_rtcp_size <= 0xffff_ffff_ffff_ffff,
                0 <= n <= 0xffff_ffff_ffff_ffff,
        ;
        let product: u128 = self.avg_rtcp_size as u128 * n as u128;
        // The product times a billion may not fit 128 bits: whole multiples
        // of the bandwidth and the rest are scaled apart.
        let d: u128 = bandwidth as u128;
        let whole: u128 = product / d;
        let rest: u128 = product % d;
        let ghost exact: int = (product * 1_000_000_000) / (d as int);
        proof {
            let scaled: int = rest * 1_000_000_000;
            assert(product == d * whole + rest) by (nonlinear_arith)
                requires
                    whole == product / d,
                    rest == product % d,
                    d > 0,
            ;
            vstd::arithmetic::div_mod::lemma_fundamental_div_mod(scaled, d as int);
            vstd::arithmetic::div_mod::lemma_mod_bound(scaled, d as int);
            assert(product * 1_000_000_000 == (whole * 1_000_000_000 + scaled / (d as int)) * d
                + scaled % (d as int)) by (nonlinear_arith)
                requires
                    product == d * whole + rest,
                    scaled == rest * 1_000_000_000,
                    scaled == d * (scaled / (d as int)) + scaled % (d as int),
            ;
            vstd::arithmetic::div_mod::lemma_fundamental_div_mod_converse(
                product * 1_000_000_000,
                d as int,
                whole * 1_000_000_000 + scaled / (d as int),
                scaled % (d as int),
            );
            assert(scaled / (d as int) >= 0) by (nonlinear_arith)
                requires
                    scaled >= 0,
                    d > 0,
            ;
        }
        let t: u128 = if whole > u64::MAX as u128 {
            u64::MAX as u128 + 1
        } else {
            whole * 1_000_000_000 + (rest * 1_000_000_000) / d
        };
        assert(t > u64::MAX <==> exact > u64::MAX);
        assert(t <= u64::MAX ==> t == exact);
        if t < shortest as u128 {
            shortest
        } else if t > u64::MAX as u128 {
            u64::MAX
        } else {
            t as u64
        }
    }

    /// Tells when the next RTCP packet is due, and sets the deadline
    /// where none stands; `rnd` picks the point in the interval. `None`
    /// where the session has no sources.
    pub fn poll_rtcp_send_timeout_with(&mut self, now: u64, rnd: u32) -> (r: Option<u64>)
        requires
            old(self).wf(),
        ensures
            final(self).wf(),
            final(self)@ == armed(old(self)@, now, rnd),
            r == deadline(final(self)@),
    {
        if self.sources.len() == 0 {
            return None;
        }
        if self.next_rtcp_send.is_some() {
            return self.next_rtcp_send;
        }
        let interval = self.interval();
        assert(interval * (0x8000_0000 + rnd) <= 0xffff_ffff_ffff_ffff * 0x1_8000_0000)
            by (nonlinear_arith)
            requires
                0 <= interval <= 0xffff_ffff_ffff_ffff,
                0 <= rnd <= 0xffff_ffff,
        ;
        let stretched: u128 = (interval as u128 * (0x8000_0000 + rnd as u128)) / 0x1_0000_0000;
        let stretched: u64 = if stretched > u64::MAX as u128 { u64::MAX } else { stretched as u64 };
        let start: u64 = match self.last_rtcp_send {
            Some(t) => t,
            None => now,
        };
        let due: u64 = if stretched > u64::MAX - start { u64::MAX } else { start + stretched };
        self.next_rtcp_send = Some(due);
        self.last_rtcp_send = Some(start);
        self.early = false;
        Some(due)
    }

    /// Tells when the next RTCP packet is due, and sets the deadline where
    /// none stands, at a point of the interval that is drawn at random:
    /// the outcome is that of `poll_rtcp_send_timeout_with` for some number.
    pub fn poll_rtcp_send_timeout(&mut self, now: u64) -> (r: Option<u64>)
        requires
            old(self).wf(),
        ensures
            final(self).wf(),
            exists|rnd: u32| final(self)@ == armed(old(self)@, now, rnd),
            r == deadline(final(self)@),
    {
        let rnd = random_u32();
        self.poll_rtcp_send_timeout_with(now, rnd)
    }

    /// Where the first source that reports as a sender stands in the table.
    fn sender_index(&self) -> (r: usize)
        ensures
            r == sender_position(self@.sources, 0),
            r <= self.sources@.len(),
            r < self.sources@.len() ==> reports_as_sender(self.sources@[r as int]),
    {
        let mut i: usize = 0;
        while i < self.sources.len()
            invariant
                i <= self.sources.len(),
                sender_position(self.sources@, 0) == sender_position(self.sources@, i as int),
            decreases self.sources.len() - i,
        {
            let s = self.sources[i];
            let active = match s.state {
                SourceState::Active => true,
                _ => false,
            };
            if s.local && s.sender && active {
                return i;
            }
            i += 1;
        }
        i
    }

    /// Makes the report blocks of a report at `now`.
    #[verifier::rlimit(50)]
    fn make_blocks(&mut self, now: u64) -> (blocks: Vec<ReportBlock>)
        requires
            old(self).wf(),
        ensures
            final(self).wf(),
            final(self)@ == (SessionView {
                sources: reporting(old(self)@.sources, now).0,
                ..old(self)@
            }),
            blocks@ == reporting(old(self)@.sources, now).1,
            blocks_fit(blocks@),
    {
        let mut blocks: Vec<ReportBlock> = Vec::new();
        let mut i: usize = 0;
        let ghost before = self.sources@;
        proof {
            assert(before.skip(0) =~= before);
            assert(self.sources@ =~= reporting(before.take(0), now).0 + before.skip(0));
        }
        while i < self.sources.len()
            invariant
                i <= self.sources.len(),
                before == old(self).sources@,
                self.sources@.len() == before.len(),
                self@ == (SessionView { sources: self.sources@, ..old(self)@ }),
                self.sources@ == reporting(before.take(i as int), now).0 + before.skip(i as int),
                blocks@ == reporting(before.take(i as int), now).1,
            decreases self.sources.len() - i,
        {
            proof {
                assert(before.take(i + 1).drop_last() =~= before.take(i as int));
                lemma_reporting(before.take(i as int), now);
                lemma_reporting(before.take(i + 1), now);
                assert(self.sources@[i as int] == before[i as int]);
            }
            let s = self.sources[i];
            let active = match s.state {
                SourceState::Active => true,
                _ => false,
            };
            if !s.local && s.sender && active && blocks.len() < MAX_REPORT_BLOCKS {
                let mut t = s;
                let rb = t.report(now);
                self.sources[i] = t;
                blocks.push(rb);
            }
            proof {
                assert(self.sources@ =~= reporting(before.take(i + 1), now).0 + before.skip(i + 1));
            }
            i += 1;
        }
        proof {
            assert(before.take(before.len() as int) =~= before);
            lemma_reporting(before, now);
            assert(self.sources@ =~= reporting(before, now).0);
            assert(distinct(self.sources@)) by {
                assert forall|a: int, b: int| 0 <= a < b < self.sources@.len() implies (
                #[trigger] self.sources@[a]).ssrc != (#[trigger] self.sources@[b]).ssrc by {
                    assert(before[a].ssrc != before[b].ssrc);
                }
            }
        }
        blocks
    }

    /// Forgets the local sources that a goodbye names, and tells their ssrcs.
    #[verifier::rlimit(50)]
    fn take_leavers(&mut self) -> (byes: Vec<u32>)
        requires
            old(self).wf(),
        ensures
            final(self).wf(),
            final(self)@ == (SessionView { sources: leaving(old(self)@.sources).0, ..old(self)@ }),
            byes@ == leaving(old(self)@.sources).1,
    {
        let mut kept: Vec<Source> = Vec::new();
        let mut byes: Vec<u32> = Vec::new();
        let mut i: usize = 0;
        while i < self.sources.len()
            invariant
                i <= self.sources.len(),
                self@ == old(self)@,
                kept@ == leaving(self.sources@.take(i as int)).0,
                byes@ == leaving(self.sources@.take(i as int)).1,
            decreases self.sources.len() - i,
        {
            proof {
                assert(self.sources@.take(i + 1).drop_last() =~= self.sources@.take(i as int));
            }
            let s = self.sources[i];
            let gone = match s.state {
                SourceState::Bye => true,
                _ => false,
            };
            if s.local && gone && byes.len() < MAX_REPORT_BLOCKS {
                byes.push(s.ssrc);
            } else {
                kept.push(s);
            }
            i += 1;
        }
        proof {
            let all = self.sources@;
            assert(all.take(all.len() as int) =~= all);
            lemma_leaving(all);
            assert forall|k: int| 0 <= k < kept@.len() implies valid(#[trigger] kept@[k]) by {
                let j = choose|j: int| 0 <= j < all.len() && all[j] == kept@[k];
                assert(valid(all[j]));
            }
        }
        self.sources = kept;
        byes
    }

    /// Writes the requests for key frames that `reporter` sends.
    fn write_feedback(&self, reporter: u32) -> (r: Vec<u8>)
        ensures
            r@ == feedback_bytes(reporter, self@.requests),
    {
        let mut out: Vec<u8> = Vec::new();
        let mut i: usize = 0;
        while i < self.requests.len()
            invariant
                i <= self.requests.len(),
                out@ == feedback_bytes(reporter, self.requests@.take(i as int)),
            decreases self.requests.len() - i,
        {
            proof {
                assert(self.requests@.take(i + 1).drop_last() =~= self.requests@.take(i as int));
            }
            let request = self.requests[i];
            let part = match request.kind {
                KeyUnitRequestType::Pli => write_pli(reporter, request.ssrc),
                KeyUnitRequestType::Fir(count) => write_fir(
                    reporter,
                    request.ssrc,
                    (count % 256) as u8,
                ),
            };
            append(&mut out, part);
            i += 1;
        }
        proof {
            assert(self.requests@.take(self.requests@.len() as int) =~= self.requests@);
        }
        out
    }

    /// Makes the RTCP packet that is due at `now` (nanoseconds; `ntp_now`
    /// is the same instant as a 64-bit NTP timestamp). `rnd` becomes the
    /// internal ssrc where the session needs one and has none. `None`
    /// where no packet is due.
    #[verifier::rlimit(50)]
    pub fn poll_rtcp_send_with(&mut self, now: u64, ntp_now: u64, rnd: u32) -> (r: Option<Vec<u8>>)
        requires
            old(self).wf(),
        ensures
            final(self).wf(),
            is_due(old(self)@, now) ==> r is Some && r->0@ == rtcp_sent(
                old(self)@,
                now,
                ntp_now,
                rnd,
            ).1 && final(self)@ == rtcp_sent(old(self)@, now, ntp_now, rnd).0,
            !is_due(old(self)@, now) ==> r is None && final(self)@ == old(self)@,
    {
        let due = match self.next_rtcp_send {
            Some(t) => t <= now,
            None => false,
        };
        if !due {
            return None;
        }
        let i = self.sender_index();
        let n = self.sources.len();
        let ssrc: u32 = if i < n {
            self.sources[i].ssrc
        } else {
            match self.internal_ssrc {
                Some(s) => s,
                None => rnd,
            }
        };
        let feedback = self.write_feedback(ssrc);
        let avpf = match self.profile {
            RtpProfile::Avpf => true,
            RtpProfile::Avp => false,
        };
        if self.early && avpf && self.reduced_size_rtcp && self.requests.len() > 0
            && self.bye_reason.is_none() {
            self.requests = Vec::new();
            self.next_rtcp_send = None;
            self.early = false;
            self.note_size(feedback.len());
            return Some(feedback);
        }
        let mut bytes: Vec<u8> = Vec::new();
        let ghost v = self@;
        let info = if i < n {
            let s = self.sources[i];
            let rate = match s.payload_type {
                Some(pt) => self.clock_rate_from_pt(pt),
                None => None,
            };
            Some(s.sender_info(now, ntp_now, rate))
        } else {
            None
        };
        let blocks = self.make_blocks(now);
        let ghost told = self@.sources;
        proof {
            lemma_reporting(v.sources, now);
        }
        match info {
            Some(info) => {
                append(&mut bytes, write_sender_report(ssrc, &info, &blocks));
                self.sources[i].last_sr = Some(info);
                self.sources[i].last_sr_time = Some(now);
                proof {
                    assert(self@.sources =~= told.update(
                        i as int,
                        Source { last_sr: Some(info), last_sr_time: Some(now), ..told[i as int] },
                    ));
                }
            },
            None => {
                append(&mut bytes, write_receiver_report(ssrc, &blocks));
            },
        }
        append(&mut bytes, write_cname(ssrc, self.cname.as_str()));
        let byes = self.take_leavers();
        if byes.len() > 0 {
            proof {
                reveal_strlit("");
                assert(""@ =~= Seq::<char>::empty());
            }
            let part = match &self.bye_reason {
                Some(reason) => write_bye(&byes, reason.as_str()),
                None => write_bye(&byes, ""),
            };
            append(&mut bytes, part);
        } else {
            proof {
                assert(bytes@ + Seq::<u8>::empty() =~= bytes@);
            }
        }
        append(&mut bytes, Some(feedback));
        if i >= n && self.internal_ssrc.is_none() {
            let k = self.find(rnd);
            if k >= self.sources.len() {
                let mut s = Source::new(rnd, true);
                s.state = SourceState::Active;
                self.sources.push(s);
            }
            self.internal_ssrc = Some(rnd);
        }
        self.requests = Vec::new();
        self.bye_reason = None;
        self.next_rtcp_send = None;
        self.last_rtcp_send = Some(now);
        self.early = false;
        self.sent_rtcp = true;
        self.note_size(bytes.len());
        Some(bytes)
    }

    /// Makes the RTCP packet that is due at `now`, with an internal ssrc
    /// drawn at random where the session needs one and has none: the
    /// outcome is that of `poll_rtcp_send_with` for some number. `None`
    /// where no packet is due.
    pub fn poll_rtcp_send(&mut self, now: u64, ntp_now: u64) -> (r: Option<Vec<u8>>)
        requires
            old(self).wf(),
        ensures
            final(self).wf(),
            is_due(old(self)@, now) ==> r is Some && exists|rnd: u32|
                r->0@ == (#[trigger] rtcp_sent(old(self)@, now, ntp_now, rnd)).1 && final(self)@
                    == rtcp_sent(old(self)@, now, ntp_now, rnd).0,
            !is_due(old(self)@, now) ==> r is None && final(self)@ == old(self)@,
    {
        let rnd = random_u32();
        self.poll_rtcp_send_with(now, ntp_now, rnd)
    }

    /// Sets a regular deadline aside.
    fn reconsider(&mut self)
        ensures
            final(self)@ == reconsidered(old(self)@),
    {
        if !self.early {
            self.next_rtcp_send = None;
        }
    }

    /// Takes the size of an RTCP packet into the average.
    fn note_size(&mut self, size: usize)
        ensures
            final(self)@ == (SessionView {
                avg_rtcp_size: averaged(old(self)@.avg_rtcp_size, size),
                ..old(self)@
            }),
    {
        let avg: u128 = (size as u128 + 15 * self.avg_rtcp_size as u128) / 16;
        self.avg_rtcp_size = if avg > u64::MAX as u128 { u64::MAX } else { avg as u64 };
    }

    /// The ssrcs of all sources, in the order in which they became known.
    pub fn ssrcs(&self) -> (r: Vec<u32>)
        ensures
            r@ == ssrcs_of(self@.sources),
    {
        let mut r: Vec<u32> = Vec::new();
        let mut i: usize = 0;
        while i < self.sources.len()
            invariant
                i <= self.sources.len(),
                r@.len() == i,
                forall|j: int| 0 <= j < i ==> r@[j] == (#[trigger] self.sources@[j]).ssrc,
            decreases self.sources.len() - i,
        {
            r.push(self.sources[i].ssrc);
            i += 1;
        }
        proof {
            assert(r@ =~= ssrcs_of(self@.sources));
        }
        r
    }

    /// The source with `ssrc`.
    pub fn source_by_ssrc(&self, ssrc: u32) -> (r: Option<Source>)
        ensures
            r == (if known(self@.sources, ssrc) {
                Some(self@.sources[position(self@.sources, ssrc)])
            } else {
                None
            }),
    {
        let i = self.find(ssrc);
        if i < self.sources.len() {
            Some(self.sources[i])
        } else {
            None
        }
    }

    /// The source with `ssrc`, where it is on the given side and sends or
    /// not as asked.
    fn lookup(&self, ssrc: u32, local: bool, sender: bool) -> (r: Option<Source>)
        ensures
            r == source_with(self@.sources, ssrc, local, sender),
    {
        let i = self.find(ssrc);
        if i < self.sources.len() && self.sources[i].local == local && self.sources[i].sender
            == sender {
            Some(self.sources[i])
        } else {
            None
        }
    }

    /// The local source with `ssrc` that sends.
    pub fn local_send_source_by_ssrc(&self, ssrc: u32) -> (r: Option<Source>)
        ensures
            r == source_with(self@.sources, ssrc, true, true),
    {
        self.lookup(ssrc, true, true)
    }

    /// The local source with `ssrc` that does not send.
    pub fn local_receive_source_by_ssrc(&self, ssrc: u32) -> (r: Option<Source>)
        ensures
            r == source_with(self@.sources, ssrc, true, false),
    {
        self.lookup(ssrc, true, false)
    }

    /// The remote source with `ssrc` that sends.
    pub fn remote_send_source_by_ssrc(&self, ssrc: u32) -> (r: Option<Source>)
        ensures
            r == source_with(self@.sources, ssrc, false, true),
    {
        self.lookup(ssrc, false, true)
    }

    /// The remote source with `ssrc` that does not send.
    pub fn remote_receive_source_by_ssrc(&self, ssrc: u32) -> (r: Option<Source>)
        ensures
            r == source_with(self@.sources, ssrc, false, false),
    {
        self.lookup(ssrc, false, false)
    }

    /// The report blocks received about `ssrc`, each with the source that
    /// sent it.
    pub fn received_report_blocks(&self, ssrc: u32) -> (r: Vec<(u32, ReceivedRb)>)
        ensures
            r@ == reports_about(self@.reports, ssrc),
    {
        let mut r: Vec<(u32, ReceivedRb)> = Vec::new();
        let mut i: usize = 0;
        while i < self.reports.len()
            invariant
                i <= self.reports.len(),
                r@ == reports_about(self.reports@.take(i as int), ssrc),
            decreases self.reports.len() - i,
        {
            proof {
                assert(self.reports@.take(i + 1).drop_last() =~= self.reports@.take(i as int));
            }
            if self.reports[i].block.rb.ssrc == ssrc {
                r.push((self.reports[i].from, self.reports[i].block));
            }
            i += 1;
        }
        proof {
            assert(self.reports@.take(self.reports@.len() as int) =~= self.reports@);
        }
        r
    }

    /// Adds a local source that does not send, where `ssrc` is not known.
    /// Tells whether the source was added.
    pub fn add_local_receive_source(&mut self, ssrc: u32) -> (r: bool)
        requires
            old(self).wf(),
        ensures
            final(self).wf(),
            r == !known(old(self)@.sources, ssrc),
            r ==> final(self)@ == (SessionView {
                sources: old(self)@.sources.push(
                    Source { state: SourceState::Active, ..new_source(ssrc, true) },
                ),
                ..old(self)@
            }),
            !r ==> final(self)@ == old(self)@,
    {
        let i = self.find(ssrc);
        if i < self.sources.len() {
            return false;
        }
        let mut s = Source::new(ssrc, true);
        s.state = SourceState::Active;
        self.sources.push(s);
        true
    }

    /// Forgets the packets that the caller holds: they are gone. A source
    /// that was waiting for them becomes valid without them.
    pub fn clear_held(&mut self)
        requires
            old(self).wf(),
        ensures
            final(self).wf(),
            final(self)@ == (SessionView { held: Seq::empty(), ..old(self)@ }),
    {
        self.held = Vec::new();
    }

    /// The packets that the caller holds for sources that are not valid yet.
    pub fn held(&self) -> (r: Vec<Held>)
        ensures
            r@ == self@.held,
    {
        let mut r: Vec<Held> = Vec::new();
        let mut i: usize = 0;
        while i < self.held.len()
            invariant
                i <= self.held.len(),
                r@ == self.held@.take(i as int),
            decreases self.held.len() - i,
        {
            r.push(self.held[i]);
            proof {
                assert(r@ =~= self.held@.take(i + 1));
            }
            i += 1;
        }
        proof {
            assert(self.held@.take(self.held@.len() as int) =~= self.held@);
        }
        r
    }

    /// When the next RTCP packet is due, where a deadline stands.
    pub fn next_rtcp_send(&self) -> (r: Option<u64>)
        ensures
            r == self@.next_rtcp_send,
    {
        self.next_rtcp_send
    }

    /// The smoothed size of the RTCP packets sent and received, in bytes.
    pub fn avg_rtcp_size(&self) -> (r: u64)
        ensures
            r == self@.avg_rtcp_size,
    {
        self.avg_rtcp_size
    }

    /// What is told of each source, in the order of the table.
    pub fn stats(&self) -> (r: Vec<SourceStats>)
        ensures
            r@ == self@.sources.map_values(|s: Source| stats_of(s, self@.clock_rates)),
    {
        let mut r: Vec<SourceStats> = Vec::new();
        let mut i: usize = 0;
        while i < self.sources.len()
            invariant
                i <= self.sources.len(),
                r@.len() == i,
                forall|j: int|
                    0 <= j < i ==> r@[j] == stats_of(
                        #[trigger] self.sources@[j],
                        self.clock_rates@,
                    ),
            decreases self.sources.len() - i,
        {
            let s = self.sources[i];
            let remote_sender = !s.local && s.sender;
            let clock_rate = match s.payload_type {
                Some(pt) if s.local || s.sender => self.clock_rate_from_pt(pt),
                _ => None,
            };
            r.push(
                SourceStats {
                    ssrc: s.ssrc,
                    sender: s.sender,
                    local: s.local,
                    packets: if s.sender { Some(s.packet_count) } else { None },
                    octets: if s.sender { Some(s.octet_count) } else { None },
                    bitrate: if s.sender { Some(s.bitrate()) } else { None },
                    jitter: if remote_sender { Some(s.jitter()) } else { None },
                    packets_lost: if remote_sender { Some(s.packets_lost()) } else { None },
                    clock_rate,
                    rtp_from: if remote_sender { s.rtp_from } else { None },
                    rtcp_from: if remote_sender { s.rtcp_from } else { None },
                    sr: if s.sender { s.last_sr } else { None },
                    sent_rb: if remote_sender { s.last_rb } else { None },
                },
            );
            i += 1;
        }
        proof {
            assert(r@ =~= self@.sources.map_values(|s: Source| stats_of(s, self@.clock_rates)));
        }
        r
    }

    /// Where the source with `ssrc` stands in the table.
    fn find(&self, ssrc: u32) -> (r: usize)
        ensures
            r == position(self@.sources, ssrc),
            r <= self.sources@.len(),
            r < self.sources@.len() ==> self.sources@[r as int].ssrc == ssrc,
            r == self.sources@.len() ==> forall|i: int|
                0 <= i < self.sources@.len() ==> (#[trigger] self.sources@[i]).ssrc != ssrc,
    {
        let mut i: usize = 0;
        while i < self.sources.len()
            invariant
                i <= self.sources.len(),
                position(self.sources@, ssrc) == position_from(self.sources@, ssrc, i as int),
                forall|j: int| 0 <= j < i ==> (#[trigger] self.sources@[j]).ssrc != ssrc,
            decreases self.sources.len() - i,
        {
            if self.sources[i].ssrc == ssrc {
                return i;
            }
            i += 1;
        }
        i
    }
}

/// Tells the fate of the held packets of `ssrc` and keeps the others.
fn settle(held: &mut Vec<Held>, ssrc: u32, forward: bool, replies: &mut Vec<RecvReply>)
    ensures
        final(held)@ == held_of_others(old(held)@, ssrc),
        final(replies)@ == old(replies)@ + fates(old(held)@, ssrc, forward),
{
    let mut kept: Vec<Held> = Vec::new();
    let mut i: usize = 0;
    proof {
        assert(replies@ =~= old(replies)@ + fates(held@.take(0), ssrc, forward));
    }
    while i < held.len()
        invariant
            i <= held.len(),
            held@ == old(held)@,
            kept@ == held_of_others(held@.take(i as int), ssrc),
            replies@ == old(replies)@ + fates(held@.take(i as int), ssrc, forward),
        decreases held.len() - i,
    {
        proof {
            assert(held@.take(i + 1).drop_last() =~= held@.take(i as int));
        }
        let h = held[i];
        if h.ssrc == ssrc {
            replies.push(
                if forward {
                    RecvReply::Forward(h.id)
                } else {
                    RecvReply::Drop(h.id)
                },
            );
            proof {
                assert(replies@ =~= old(replies)@ + fates(held@.take(i + 1), ssrc, forward));
            }
        } else {
            kept.push(h);
        }
        i += 1;
    }
    proof {
        assert(held@.take(held@.len() as int) =~= held@);
    }
    *held = kept;
}

/// Puts a report into the list: in the place of the one from the same
/// source about the same source, or at the end.
fn put_report(reports: &mut Vec<Report>, r: Report)
    ensures
        final(reports)@ == with_report(old(reports)@, r),
{
    let mut i: usize = 0;
    while i < reports.len()
        invariant
            i <= reports.len(),
            reports@ == old(reports)@,
            report_position(reports@, r.from, r.block.rb.ssrc, 0) == report_position(
                reports@,
                r.from,
                r.block.rb.ssrc,
                i as int,
            ),
        decreases reports.len() - i,
    {
        if reports[i].from == r.from && reports[i].block.rb.ssrc == r.block.rb.ssrc {
            reports[i] = r;
            return ;
        }
        i += 1;
    }
    reports.push(r);
}

/// Puts the bytes, where there are any, behind those in `out`.
fn append(out: &mut Vec<u8>, part: Option<Vec<u8>>)
    ensures
        final(out)@ == old(out)@ + or_empty(
            match part {
                Some(v) => Some(v@),
                None => None,
            },
        ),
{
    match part {
        Some(v) => {
            let mut v = v;
            out.append(&mut v);
        },
        None => {
            proof {
                assert(out@ + Seq::<u8>::empty() =~= out@);
            }
        },
    }
}

} // verus!

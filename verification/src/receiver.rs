//! The receiving side of one session: the session itself, the packets that
//! wait for their source to become valid, and one jitter buffer for each
//! received stream.

use vstd::prelude::*;
use crate::jitterbuffer::{
    distinct_ids, empty_buffer, item_queued, outcome_of, packet_queued, poll_of, polled, takes,
    JitterBuffer, JitterBufferView, PollResult, QueueResult,
};
use crate::packet::{Address, RtpPacket};
use crate::session::{
    fates, held_of_others, ids_grow, lemma_others_grow, received, replies_to, session_after, sound,
    taken, Held, RecvReply, Session, SessionView,
};
use crate::source::{receive_step, Verdict};

verus! {

/// A packet that waits for its source to become valid.
#[derive(Debug, Clone, Copy, PartialEq, Eq, Structural)]
pub struct HeldPacket {
    pub hold_id: usize,
    pub packet: RtpPacket,
    /// The presentation time that was worked out when the packet arrived.
    pub pts: u64,
}

/// What the caller does with the packet in hand or with one it holds.
#[derive(Debug, Clone, Copy, PartialEq, Eq, Structural)]
pub enum RecvAction {
    /// The ssrc was not known before; with the payload type of the packet.
    NewSsrc(u32, u8),
    /// The ssrc of the packet is one of this engine's own.
    SsrcCollision(u32),
    /// Keep the packet in hand under this id.
    Hold(usize),
    /// Drop the packet held under this id.
    Drop(usize),
    /// The packet held under `held`, or the one in hand, went into the
    /// jitter buffer of the stream at `stream` under `id`.
    Queued { held: Option<usize>, stream: usize, new_stream: bool, id: usize },
    /// The jitter buffer took the packet for late: drop it.
    Late { held: Option<usize>, stream: usize, new_stream: bool },
    /// The jitter buffer took the packet for a duplicate: drop it.
    Duplicate { held: Option<usize>, stream: usize, new_stream: bool },
    /// The jitter buffer takes no more packets: drop it.
    Refused { held: Option<usize>, stream: usize, new_stream: bool },
    /// The session told the fate of a packet that is not held.
    Missing(usize),
    /// Drop the packet in hand.
    Ignore,
}

/// What the jitter buffers of a session have for the caller.
#[derive(Debug, Clone, Copy, PartialEq, Eq, Structural)]
pub enum StreamPoll {
    /// The entry `id` of the stream at `stream` leaves its buffer now.
    Forward { stream: usize, id: usize, discont: bool },
    /// Nothing is due before this instant.
    Timeout(u64),
    /// Nothing is held.
    Pending,
}

/// One received stream: the packets of one payload type from one source.
pub struct RecvStream {
    pt: u8,
    ssrc: u32,
    active: bool,
    jitterbuffer: JitterBuffer,
}

/// A received stream as contracts speak of it.
pub struct RecvStreamView {
    pub pt: u8,
    pub ssrc: u32,
    /// Whether the output of the stream takes packets.
    pub active: bool,
    pub jitterbuffer: JitterBufferView,
}

impl View for RecvStream {
    type V = RecvStreamView;

    closed spec fn view(&self) -> RecvStreamView {
        RecvStreamView {
            pt: self.pt,
            ssrc: self.ssrc,
            active: self.active,
            jitterbuffer: self.jitterbuffer@,
        }
    }
}

/// The receiving side of a session as contracts speak of it.
pub struct ReceiverView {
    pub session: SessionView,
    pub streams: Seq<RecvStreamView>,
    pub store: Seq<HeldPacket>,
    /// How long the jitter buffers hold packets, in nanoseconds.
    pub latency: u64,
}

/// The index of the stream of `pt` and `ssrc` at or behind `from`, or the
/// number of streams where there is none.
pub open spec fn stream_position(streams: Seq<RecvStreamView>, pt: u8, ssrc: u32, from: int) -> int
    decreases streams.len() - from,
{
    if from < 0 || from >= streams.len() {
        streams.len() as int
    } else if streams[from].pt == pt && streams[from].ssrc == ssrc {
        from
    } else {
        stream_position(streams, pt, ssrc, from + 1)
    }
}

/// The index of the held packet `id` at or behind `from`, or the length
/// of the store where there is none.
pub open spec fn held_position(store: Seq<HeldPacket>, id: usize, from: int) -> int
    decreases store.len() - from,
{
    if from < 0 || from >= store.len() {
        store.len() as int
    } else if store[from].hold_id == id {
        from
    } else {
        held_position(store, id, from + 1)
    }
}

/// The streams after a packet went to the jitter buffer of its stream, and
/// what the caller does with the packet. The stream is made where the
/// packet is the first of its payload type and source.
pub open spec fn routed(
    streams: Seq<RecvStreamView>,
    latency: u64,
    held: Option<usize>,
    p: RtpPacket,
    pts: u64,
    now: u64,
) -> (Seq<RecvStreamView>, RecvAction) {
    let i = stream_position(streams, p.payload_type, p.ssrc, 0);
    let new_stream = i >= streams.len();
    let all = if new_stream {
        streams.push(
            RecvStreamView {
                pt: p.payload_type,
                ssrc: p.ssrc,
                active: false,
                jitterbuffer: empty_buffer(latency),
            },
        )
    } else {
        streams
    };
    let jb = all[i].jitterbuffer;
    if !takes(jb) {
        (all, RecvAction::Refused { held, stream: i as usize, new_stream })
    } else {
        (
            all.update(
                i,
                RecvStreamView {
                    jitterbuffer: packet_queued(jb, p.sequence_number, pts, now),
                    ..all[i]
                },
            ),
            match outcome_of(jb, p.sequence_number, pts, now) {
                QueueResult::Queued(id) => RecvAction::Queued {
                    held,
                    stream: i as usize,
                    new_stream,
                    id,
                },
                QueueResult::Late => RecvAction::Late { held, stream: i as usize, new_stream },
                QueueResult::Duplicate => RecvAction::Duplicate {
                    held,
                    stream: i as usize,
                    new_stream,
                },
            },
        )
    }
}

/// The receiving side after one reply of the session was acted on, and
/// what the caller does: a packet that is to be held goes into the store;
/// one that is to be dropped leaves it; one that is to be forwarded, or
/// that passes, goes to the jitter buffer of its stream.
pub open spec fn acted(v: ReceiverView, reply: RecvReply, p: RtpPacket, pts: u64, now: u64) -> (
    ReceiverView,
    RecvAction,
) {
    match reply {
        RecvReply::NewSsrc(ssrc, pt) => (v, RecvAction::NewSsrc(ssrc, pt)),
        RecvReply::SsrcCollision(ssrc) => (v, RecvAction::SsrcCollision(ssrc)),
        RecvReply::Ignore => (v, RecvAction::Ignore),
        RecvReply::Hold(id) => (
            ReceiverView { store: v.store.push(HeldPacket { hold_id: id, packet: p, pts }), ..v },
            RecvAction::Hold(id),
        ),
        RecvReply::Drop(id) => {
            let k = held_position(v.store, id, 0);
            if k < v.store.len() {
                (ReceiverView { store: v.store.remove(k), ..v }, RecvAction::Drop(id))
            } else {
                (v, RecvAction::Missing(id))
            }
        },
        RecvReply::Forward(id) => {
            let k = held_position(v.store, id, 0);
            if k < v.store.len() {
                let (streams, action) = routed(
                    v.streams,
                    v.latency,
                    Some(id),
                    v.store[k].packet,
                    v.store[k].pts,
                    now,
                );
                (ReceiverView { store: v.store.remove(k), streams, ..v }, action)
            } else {
                (v, RecvAction::Missing(id))
            }
        },
        RecvReply::Passthrough => {
            let (streams, action) = routed(v.streams, v.latency, None, p, pts, now);
            (ReceiverView { streams, ..v }, action)
        },
    }
}

/// The receiving side after the replies were acted on, one after the
/// other, and what the caller does for each.
pub open spec fn all_acted(
    v: ReceiverView,
    replies: Seq<RecvReply>,
    p: RtpPacket,
    pts: u64,
    now: u64,
) -> (ReceiverView, Seq<RecvAction>)
    decreases replies.len(),
{
    if replies.len() == 0 {
        (v, Seq::empty())
    } else {
        let (w, actions) = all_acted(v, replies.drop_last(), p, pts, now);
        let (x, action) = acted(w, replies.last(), p, pts, now);
        (x, actions.push(action))
    }
}

/// The receiving side after a packet was received, and what the caller
/// does: the session takes the packet in, and each of its replies is
/// acted on.
pub open spec fn rtp_received(
    v: ReceiverView,
    p: RtpPacket,
    pts: u64,
    from: Option<Address>,
    now: u64,
) -> (ReceiverView, Seq<RecvAction>) {
    all_acted(
        ReceiverView { session: session_after(v.session, p, from, now), ..v },
        replies_to(v.session, p, from, now),
        p,
        pts,
        now,
    )
}

/// Whether the stream has an entry for the caller at `now`.
pub open spec fn is_ready(s: RecvStreamView, now: u64) -> bool {
    s.active && poll_of(s.jitterbuffer, now) is Forward
}

/// The index of the first stream at or behind `from` that has an entry
/// for the caller, or the number of streams where there is none.
pub open spec fn first_ready(streams: Seq<RecvStreamView>, now: u64, from: int) -> int
    decreases streams.len() - from,
{
    if from < 0 || from >= streams.len() {
        streams.len() as int
    } else if is_ready(streams[from], now) {
        from
    } else {
        first_ready(streams, now, from + 1)
    }
}

/// The earliest instant at which an active stream has an entry for the
/// caller, where one of them holds anything.
pub open spec fn earliest(streams: Seq<RecvStreamView>, now: u64) -> Option<u64>
    decreases streams.len(),
{
    if streams.len() == 0 {
        None
    } else {
        let before = earliest(streams.drop_last(), now);
        let s = streams.last();
        match poll_of(s.jitterbuffer, now) {
            PollResult::Timeout(t) if s.active => match before {
                Some(b) if b <= t => Some(b),
                _ => Some(t),
            },
            _ => before,
        }
    }
}

/// The streams after the caller asked for the next entry at `now`, and
/// the answer: the entry of the first active stream that has one; else
/// the earliest instant at which one will; else nothing.
pub open spec fn streams_polled(streams: Seq<RecvStreamView>, now: u64) -> (
    Seq<RecvStreamView>,
    StreamPoll,
) {
    let k = first_ready(streams, now, 0);
    if k < streams.len() {
        (
            streams.update(
                k,
                RecvStreamView { jitterbuffer: polled(streams[k].jitterbuffer, now), ..streams[k] },
            ),
            match poll_of(streams[k].jitterbuffer, now) {
                PollResult::Forward { id, discont } => StreamPoll::Forward {
                    stream: k as usize,
                    id,
                    discont,
                },
                _ => StreamPoll::Pending,
            },
        )
    } else {
        (
            streams,
            match earliest(streams, now) {
                Some(t) => StreamPoll::Timeout(t),
                None => StreamPoll::Pending,
            },
        )
    }
}

/// The streams after a place for a serialized item was reserved in each
/// jitter buffer that takes one, and the stream and id of each place.
pub open spec fn serialized(streams: Seq<RecvStreamView>) -> (Seq<RecvStreamView>, Seq<(usize, usize)>)
    decreases streams.len(),
{
    if streams.len() == 0 {
        (Seq::empty(), Seq::empty())
    } else {
        let (s, places) = serialized(streams.drop_last());
        let x = streams.last();
        if takes(x.jitterbuffer) {
            (
                s.push(RecvStreamView { jitterbuffer: item_queued(x.jitterbuffer), ..x }),
                places.push(((streams.len() - 1) as usize, x.jitterbuffer.next_id)),
            )
        } else {
            (s.push(x), places)
        }
    }
}

/// The streams after a place for a serialized item was reserved in the
/// jitter buffer of the stream at `stream`, and the id of the place;
/// nothing changes where there is no such stream or its jitter buffer
/// takes no more entries.
pub open spec fn serialized_in(streams: Seq<RecvStreamView>, stream: usize) -> (
    Seq<RecvStreamView>,
    Option<usize>,
) {
    if stream < streams.len() && takes(streams[stream as int].jitterbuffer) {
        (
            streams.update(
                stream as int,
                RecvStreamView {
                    jitterbuffer: item_queued(streams[stream as int].jitterbuffer),
                    ..streams[stream as int]
                },
            ),
            Some(streams[stream as int].jitterbuffer.next_id),
        )
    } else {
        (streams, None)
    }
}

/// Reserving places changes no stream's place.
pub proof fn lemma_serialized_len(streams: Seq<RecvStreamView>)
    ensures
        serialized(streams).0.len() == streams.len(),
    decreases streams.len(),
{
    if streams.len() > 0 {
        lemma_serialized_len(streams.drop_last());
    }
}

/// What the session knows a held packet by.
pub open spec fn key_of(h: HeldPacket) -> Held {
    Held { ssrc: h.packet.ssrc, id: h.hold_id }
}

/// The store holds the packets that the session takes for held, in the
/// order in which they came.
pub open spec fn agree(store: Seq<HeldPacket>, held: Seq<Held>) -> bool {
    &&& store.len() == held.len()
    &&& forall|i: int| 0 <= i < store.len() ==> key_of(#[trigger] store[i]) == held[i]
}

/// No action tells of a packet that is not held.
pub open spec fn none_missing(actions: Seq<RecvAction>) -> bool {
    forall|i: int| 0 <= i < actions.len() ==> !(#[trigger] actions[i] is Missing)
}

/// Acting on replies and then on one more is acting on all of them.
pub proof fn lemma_acted_push(
    v: ReceiverView,
    replies: Seq<RecvReply>,
    x: RecvReply,
    p: RtpPacket,
    pts: u64,
    now: u64,
)
    ensures
        all_acted(v, replies.push(x), p, pts, now).0 == acted(
            all_acted(v, replies, p, pts, now).0,
            x,
            p,
            pts,
            now,
        ).0,
        all_acted(v, replies.push(x), p, pts, now).1 == all_acted(v, replies, p, pts, now).1.push(
            acted(all_acted(v, replies, p, pts, now).0, x, p, pts, now).1,
        ),
{
    assert(replies.push(x).drop_last() =~= replies);
}

/// Acting on replies and then on more is acting on all of them.
pub proof fn lemma_acted_concat(
    v: ReceiverView,
    a: Seq<RecvReply>,
    b: Seq<RecvReply>,
    p: RtpPacket,
    pts: u64,
    now: u64,
)
    ensures
        all_acted(v, a + b, p, pts, now).0 == all_acted(
            all_acted(v, a, p, pts, now).0,
            b,
            p,
            pts,
            now,
        ).0,
        all_acted(v, a + b, p, pts, now).1 == all_acted(v, a, p, pts, now).1 + all_acted(
            all_acted(v, a, p, pts, now).0,
            b,
            p,
            pts,
            now,
        ).1,
    decreases b.len(),
{
    let w = all_acted(v, a, p, pts, now);
    if b.len() == 0 {
        assert(a + b =~= a);
        assert(w.1 + Seq::<RecvAction>::empty() =~= w.1);
    } else {
        lemma_acted_concat(v, a, b.drop_last(), p, pts, now);
        assert((a + b).drop_last() =~= a + b.drop_last());
        assert((a + b).last() == b.last());
        let u = all_acted(w.0, b.drop_last(), p, pts, now);
        let x = acted(u.0, b.last(), p, pts, now);
        assert(w.1 + u.1.push(x.1) =~= (w.1 + u.1).push(x.1));
    }
}

/// A held packet is found where it stands, where no packet before it
/// has its id.
proof fn lemma_held_position(store: Seq<HeldPacket>, id: usize, m: int, from: int)
    requires
        0 <= from <= m < store.len(),
        store[m].hold_id == id,
        forall|j: int| 0 <= j < m ==> (#[trigger] store[j]).hold_id != id,
    ensures
        held_position(store, id, from) == m,
    decreases m - from,
{
    if from < m {
        lemma_held_position(store, id, m, from + 1);
    }
}

/// Once the fates of the held packets of a source were acted on, up to
/// the `k`th held packet, those packets have left the store and all
/// others are still there; none was missing.
#[verifier::rlimit(50)]
proof fn lemma_settled(
    v: ReceiverView,
    held: Seq<Held>,
    next: usize,
    k: int,
    ssrc: u32,
    forward: bool,
    p: RtpPacket,
    pts: u64,
    now: u64,
)
    requires
        ids_grow(held, next),
        agree(v.store, held),
        0 <= k <= held.len(),
    ensures
        ({
            let r = all_acted(v, fates(held.take(k), ssrc, forward), p, pts, now);
            &&& agree(r.0.store, held_of_others(held.take(k), ssrc) + held.skip(k))
            &&& r.0.session == v.session
            &&& r.0.latency == v.latency
            &&& none_missing(r.1)
        }),
    decreases k,
{
    if k == 0 {
        assert(held.take(0) =~= Seq::<Held>::empty());
        assert(held_of_others(held.take(0), ssrc) + held.skip(0) =~= held);
    } else {
        lemma_settled(v, held, next, k - 1, ssrc, forward, p, pts, now);
        let before = held.take(k - 1);
        let upto = held.take(k);
        assert(upto.drop_last() =~= before);
        assert(upto.last() == held[k - 1]);
        let e = held[k - 1];
        let r0 = all_acted(v, fates(before, ssrc, forward), p, pts, now);
        let others = held_of_others(before, ssrc);
        let t = others + held.skip(k - 1);
        assert(t[others.len() as int] == e);
        if e.ssrc != ssrc {
            assert(held_of_others(upto, ssrc) + held.skip(k) =~= t);
        } else {
            let x = if forward {
                RecvReply::Forward(e.id)
            } else {
                RecvReply::Drop(e.id)
            };
            lemma_acted_push(v, fates(before, ssrc, forward), x, p, pts, now);
            let m = others.len() as int;
            assert(ids_grow(before, next)) by {
                assert forall|i: int, j: int| 0 <= i < j < before.len() implies (
                #[trigger] before[i]).id < (#[trigger] before[j]).id by {
                    assert(held[i].id < held[j].id);
                }
                assert forall|i: int| 0 <= i < before.len() implies (#[trigger] before[i]).id
                    < next by {
                    assert(held[i].id < next);
                }
            }
            lemma_others_grow(before, ssrc, next);
            assert forall|j: int| 0 <= j < m implies (#[trigger] r0.0.store[j]).hold_id != e.id by {
                assert(key_of(r0.0.store[j]) == t[j]);
                assert(t[j] == others[j]);
                let w = choose|w: int| 0 <= w < before.len() && before[w] == others[j];
                assert(held[w].id < held[k - 1].id);
            }
            assert(key_of(r0.0.store[m]) == t[m]);
            lemma_held_position(r0.0.store, e.id, m, 0);
            let r1 = acted(r0.0, x, p, pts, now);
            assert(r1.0.store == r0.0.store.remove(m));
            assert(held_of_others(upto, ssrc) == others);
            assert(agree(r1.0.store, others + held.skip(k))) by {
                let u = others + held.skip(k);
                assert(u =~= t.remove(m));
                assert forall|i: int| 0 <= i < r1.0.store.len() implies key_of(
                    #[trigger] r1.0.store[i],
                ) == u[i] by {
                    if i < m {
                        assert(r1.0.store[i] == r0.0.store[i]);
                    } else {
                        assert(r1.0.store[i] == r0.0.store[i + 1]);
                        assert(key_of(r0.0.store[i + 1]) == t[i + 1]);
                    }
                }
            }
            let all = all_acted(v, fates(upto, ssrc, forward), p, pts, now);
            assert(all.1 == r0.1.push(r1.1));
            assert(!(r1.1 is Missing));
            assert forall|i: int| 0 <= i < all.1.len() implies !(#[trigger] all.1[i] is Missing) by {
                if i < r0.1.len() {
                    assert(all.1[i] == r0.1[i]);
                }
            }
        }
    }
}

/// What holds of the receiving side between two calls: the session is
/// sound and owes no replies, and the store holds the packets that the
/// session takes for held.
pub open spec fn settled(v: ReceiverView) -> bool {
    &&& sound(v.session)
    &&& v.session.recv_replies.len() == 0
    &&& agree(v.store, v.session.held)
}

/// Acting on replies that tell nothing of held packets leaves the store
/// as it is.
proof fn lemma_first_acted(v: ReceiverView, first: Seq<RecvReply>, p: RtpPacket, pts: u64, now: u64)
    requires
        first.len() <= 2,
        forall|i: int|
            0 <= i < first.len() ==> (#[trigger] first[i]) is NewSsrc || first[i] is SsrcCollision
                || first[i] is Ignore,
    ensures
        all_acted(v, first, p, pts, now).0 == v,
        none_missing(all_acted(v, first, p, pts, now).1),
    decreases first.len(),
{
    if first.len() > 0 {
        lemma_first_acted(v, first.drop_last(), p, pts, now);
        let r0 = all_acted(v, first.drop_last(), p, pts, now);
        let r = all_acted(v, first, p, pts, now);
        assert forall|i: int| 0 <= i < r.1.len() implies !(#[trigger] r.1[i] is Missing) by {
            if i < r0.1.len() {
                assert(r.1[i] == r0.1[i]);
            }
        }
    }
}

/// Acting on replies changes neither the session nor the latency.
pub proof fn lemma_acted_keeps_session(
    v: ReceiverView,
    replies: Seq<RecvReply>,
    p: RtpPacket,
    pts: u64,
    now: u64,
)
    ensures
        all_acted(v, replies, p, pts, now).0.session == v.session,
        all_acted(v, replies, p, pts, now).0.latency == v.latency,
        all_acted(v, replies, p, pts, now).1.len() == replies.len(),
    decreases replies.len(),
{
    if replies.len() > 0 {
        lemma_acted_keeps_session(v, replies.drop_last(), p, pts, now);
    }
}

/// One more action that is none about a missing packet leaves none missing.
proof fn lemma_none_missing_push(actions: Seq<RecvAction>, x: RecvAction)
    requires
        none_missing(actions),
        !(x is Missing),
    ensures
        none_missing(actions.push(x)),
{
    let r = actions.push(x);
    assert forall|k: int| 0 <= k < r.len() implies !(#[trigger] r[k] is Missing) by {
        if k < actions.len() {
            assert(r[k] == actions[k]);
        }
    }
}

/// Actions of which none is about a missing packet, one list behind the
/// other, are such a list.
proof fn lemma_none_missing_concat(a: Seq<RecvAction>, b: Seq<RecvAction>)
    requires
        none_missing(a),
        none_missing(b),
    ensures
        none_missing(a + b),
{
    let r = a + b;
    assert forall|k: int| 0 <= k < r.len() implies !(#[trigger] r[k] is Missing) by {
        if k < a.len() {
            assert(r[k] == a[k]);
        } else {
            assert(r[k] == b[k - a.len()]);
        }
    }
}

/// The store and the held packets agree after replies that hold the
/// packet in hand, let it pass or ignore it, behind replies that tell
/// nothing of held packets.
#[verifier::rlimit(50)]
proof fn lemma_plain_settled(
    v: ReceiverView,
    held: Seq<Held>,
    first: Seq<RecvReply>,
    x: RecvReply,
    p: RtpPacket,
    pts: u64,
    now: u64,
)
    requires
        agree(v.store, held),
        first.len() <= 2,
        forall|i: int|
            0 <= i < first.len() ==> (#[trigger] first[i]) is NewSsrc || first[i] is SsrcCollision
                || first[i] is Ignore,
        x is Hold || x is Passthrough || x is Ignore,
    ensures
        none_missing(all_acted(v, first.push(x), p, pts, now).1),
        x is Hold ==> agree(
            all_acted(v, first.push(x), p, pts, now).0.store,
            held.push(Held { ssrc: p.ssrc, id: x->Hold_0 }),
        ),
        !(x is Hold) ==> agree(all_acted(v, first.push(x), p, pts, now).0.store, held),
{
    lemma_first_acted(v, first, p, pts, now);
    lemma_acted_push(v, first, x, p, pts, now);
    let r0 = all_acted(v, first, p, pts, now);
    let r = all_acted(v, first.push(x), p, pts, now);
    lemma_none_missing_push(r0.1, acted(r0.0, x, p, pts, now).1);
    if x is Hold {
        let h = held.push(Held { ssrc: p.ssrc, id: x->Hold_0 });
        assert forall|k: int| 0 <= k < r.0.store.len() implies key_of(#[trigger] r.0.store[k])
            == h[k] by {
            if k < v.store.len() {
                assert(r.0.store[k] == v.store[k]);
            }
        }
    }
}

/// The store and the held packets agree after replies that tell the fate
/// of the held packets of a source and then hold the packet in hand, let
/// it pass or ignore it.
#[verifier::rlimit(50)]
proof fn lemma_fates_settled(
    v: ReceiverView,
    held: Seq<Held>,
    next: usize,
    first: Seq<RecvReply>,
    forward: bool,
    x: RecvReply,
    p: RtpPacket,
    pts: u64,
    now: u64,
)
    requires
        agree(v.store, held),
        ids_grow(held, next),
        first.len() <= 2,
        forall|i: int|
            0 <= i < first.len() ==> (#[trigger] first[i]) is NewSsrc || first[i] is SsrcCollision
                || first[i] is Ignore,
        x is Hold || x is Passthrough || x is Ignore,
    ensures
        ({
            let replies = (first + fates(held, p.ssrc, forward)).push(x);
            let others = held_of_others(held, p.ssrc);
            &&& none_missing(all_acted(v, replies, p, pts, now).1)
            &&& x is Hold ==> agree(
                all_acted(v, replies, p, pts, now).0.store,
                others.push(Held { ssrc: p.ssrc, id: x->Hold_0 }),
            )
            &&& !(x is Hold) ==> agree(all_acted(v, replies, p, pts, now).0.store, others)
        }),
{
    let f = fates(held, p.ssrc, forward);
    let others = held_of_others(held, p.ssrc);
    lemma_first_acted(v, first, p, pts, now);
    lemma_acted_concat(v, first, f, p, pts, now);
    assert(held.take(held.len() as int) =~= held);
    assert(others + held.skip(held.len() as int) =~= others);
    lemma_settled(v, held, next, held.len() as int, p.ssrc, forward, p, pts, now);
    let a = all_acted(v, first, p, pts, now);
    let b = all_acted(v, f, p, pts, now);
    let r0 = all_acted(v, first + f, p, pts, now);
    lemma_none_missing_concat(a.1, b.1);
    assert(agree(r0.0.store, others));
    lemma_acted_push(v, first + f, x, p, pts, now);
    let r = all_acted(v, (first + f).push(x), p, pts, now);
    lemma_none_missing_push(r0.1, acted(r0.0, x, p, pts, now).1);
    if x is Hold {
        let h = others.push(Held { ssrc: p.ssrc, id: x->Hold_0 });
        assert forall|k: int| 0 <= k < r.0.store.len() implies key_of(#[trigger] r.0.store[k])
            == h[k] by {
            if k < r0.0.store.len() {
                assert(r.0.store[k] == r0.0.store[k]);
            }
        }
    }
}

/// The store and the session agree after the source at `i` took a packet
/// in, and no reply tells the fate of a packet that is not held.
#[verifier::rlimit(50)]
proof fn lemma_taken_settled(
    v: ReceiverView,
    start: SessionView,
    i: int,
    source: crate::source::Source,
    first: Seq<RecvReply>,
    p: RtpPacket,
    pts: u64,
    now: u64,
)
    requires
        agree(v.store, start.held),
        ids_grow(start.held, start.next_hold_id),
        first.len() <= 2,
        forall|k: int|
            0 <= k < first.len() ==> (#[trigger] first[k]) is NewSsrc || first[k] is SsrcCollision
                || first[k] is Ignore,
    ensures
        ({
            let t = taken(start, i, source, p, now, first);
            &&& none_missing(all_acted(v, t.1, p, pts, now).1)
            &&& agree(all_acted(v, t.1, p, pts, now).0.store, t.0.held)
        }),
{
    let rate = crate::session::clock_rate_of(start.clock_rates, p.payload_type);
    let verdict = receive_step(source, p, now, rate).1;
    let held = start.held;
    let next = start.next_hold_id;
    let x = if next < usize::MAX {
        RecvReply::Hold(next)
    } else {
        RecvReply::Ignore
    };
    match verdict {
        Verdict::Hold => {
            lemma_plain_settled(v, held, first, x, p, pts, now);
        },
        Verdict::Restart => {
            lemma_fates_settled(v, held, next, first, false, x, p, pts, now);
        },
        Verdict::Validated => {
            lemma_fates_settled(v, held, next, first, true, RecvReply::Passthrough, p, pts, now);
        },
        Verdict::Pass => {
            lemma_plain_settled(v, held, first, RecvReply::Passthrough, p, pts, now);
        },
        Verdict::Ignore => {
            lemma_plain_settled(v, held, first, RecvReply::Ignore, p, pts, now);
        },
    }
}

/// The store and the session agree after a packet was received as they
/// did before, and no reply of the session tells the fate of a packet
/// that is not held: the caller finds every packet that it is told to
/// forward or to drop.
#[verifier::rlimit(50)]
pub proof fn lemma_received_settled(
    v: ReceiverView,
    p: RtpPacket,
    pts: u64,
    from: Option<Address>,
    now: u64,
)
    requires
        settled(v),
    ensures
        agree(
            rtp_received(v, p, pts, from, now).0.store,
            rtp_received(v, p, pts, from, now).0.session.held,
        ),
        rtp_received(v, p, pts, from, now).0.session == session_after(v.session, p, from, now),
        rtp_received(v, p, pts, from, now).0.latency == v.latency,
        none_missing(rtp_received(v, p, pts, from, now).1),
{
    let s = v.session;
    let after = session_after(s, p, from, now);
    let replies = replies_to(s, p, from, now);
    let w = ReceiverView { session: after, ..v };
    lemma_acted_keeps_session(w, replies, p, pts, now);
    let i = crate::session::position(s.sources, p.ssrc);
    if i < s.sources.len() && s.sources[i].local {
        assert(replies =~= seq![RecvReply::SsrcCollision(p.ssrc), RecvReply::Ignore]);
        lemma_first_acted(w, replies, p, pts, now);
    } else if i < s.sources.len() && from is Some && s.sources[i].rtp_from is Some && from
        != s.sources[i].rtp_from {
        assert(replies =~= seq![RecvReply::Ignore]);
        lemma_first_acted(w, replies, p, pts, now);
    } else if i < s.sources.len() {
        let source = crate::source::Source {
            rtp_from: if s.sources[i].rtp_from is Some {
                s.sources[i].rtp_from
            } else {
                from
            },
            ..s.sources[i]
        };
        lemma_taken_settled(w, s, i, source, Seq::empty(), p, pts, now);
    } else {
        let source = crate::source::Source {
            rtp_from: from,
            ..crate::source::new_source(p.ssrc, false)
        };
        let start = crate::session::reconsidered(
            SessionView { sources: s.sources.push(source), ..s },
        );
        lemma_taken_settled(
            w,
            start,
            i,
            source,
            seq![RecvReply::NewSsrc(p.ssrc, p.payload_type)],
            p,
            pts,
            now,
        );
    }
}

/// The receiving side of one session.
pub struct Receiver {
    session: Session,
    streams: Vec<RecvStream>,
    store: Vec<HeldPacket>,
    latency: u64,
}

impl View for Receiver {
    type V = ReceiverView;

    closed spec fn view(&self) -> ReceiverView {
        ReceiverView {
            session: self.session@,
            streams: self.streams@.map_values(|s: RecvStream| s@),
            store: self.store@,
            latency: self.latency,
        }
    }
}

impl Receiver {
    /// The invariant of the receiving side: that of each jitter buffer,
    /// and the session and the store of held packets agree (`settled`).
    pub closed spec fn wf(&self) -> bool {
        &&& settled(self@)
        &&& forall|i: int| 0 <= i < self.streams@.len() ==> (#[trigger] self.streams@[i]).jitterbuffer.wf()
    }

    /// In each stream no id is given twice: an entry that its jitter buffer
    /// has forwarded is no longer held under its id, so what is kept under
    /// the id of a forwarded entry can be taken out for good.
    pub proof fn lemma_stream_ids_distinct(&self, k: int)
        requires
            self.wf(),
            0 <= k < self@.streams.len(),
        ensures
            distinct_ids(
                self@.streams[k].jitterbuffer.released + self@.streams[k].jitterbuffer.queue,
            ),
            forall|i: int, j: int|
                0 <= i < self@.streams[k].jitterbuffer.released.len() && 0 <= j
                    < self@.streams[k].jitterbuffer.queue.len() ==> (
                #[trigger] self@.streams[k].jitterbuffer.released[i]).id != (
                #[trigger] self@.streams[k].jitterbuffer.queue[j]).id,
    {
        self.streams@[k].jitterbuffer.lemma_ids_distinct();
    }

    /// Between two calls the session is sound and owes no replies, and the
    /// store holds the packets that the session takes for held.
    #[verifier::rlimit(50)]
    pub proof fn lemma_settled(&self)
        requires
            self.wf(),
        ensures
            settled(self@),
    {
    }

    /// The receiving side of `session`, with jitter buffers that hold
    /// packets for `latency` nanoseconds.
    pub fn new(session: Session, latency: u64) -> (r: Self)
        requires
            session.wf(),
            session@.held.len() == 0,
            session@.recv_replies.len() == 0,
        ensures
            r.wf(),
            r@ == (ReceiverView {
                session: session@,
                streams: Seq::empty(),
                store: Seq::empty(),
                latency,
            }),
    {
        let r = Receiver { session, streams: Vec::new(), store: Vec::new(), latency };
        proof {
            assert(r@.streams =~= Seq::empty());
        }
        r
    }

    /// The session, to work on. The receiving side stays sound as long as
    /// the session does, and is left with the packets that it took for
    /// held and without replies that it owes for received packets.
    pub fn session_mut(&mut self) -> (r: &mut Session)
        ensures
            r@ == old(self)@.session,
            old(self).wf() ==> r.wf(),
            final(self)@ == (ReceiverView { session: final(r)@, ..old(self)@ }),
            old(self).wf() && final(r).wf() && final(r)@.held == r@.held && final(r)@.recv_replies
                == r@.recv_replies ==> final(self).wf(),
    {
        &mut self.session
    }

    /// The session.
    pub fn session(&self) -> (r: &Session)
        ensures
            r@ == self@.session,
            self.wf() ==> r.wf(),
    {
        &self.session
    }

    /// How long the jitter buffers hold packets, in nanoseconds.
    pub fn latency(&self) -> (r: u64)
        ensures
            r == self@.latency,
    {
        self.latency
    }

    /// Number of received streams.
    pub fn stream_count(&self) -> (r: usize)
        ensures
            r == self@.streams.len(),
    {
        self.streams.len()
    }

    /// Payload type and ssrc of the stream at `stream`.
    pub fn stream_key(&self, stream: usize) -> (r: Option<(u8, u32)>)
        ensures
            r == (if stream < self@.streams.len() {
                Some((self@.streams[stream as int].pt, self@.streams[stream as int].ssrc))
            } else {
                None
            }),
    {
        if stream < self.streams.len() {
            Some((self.streams[stream].pt, self.streams[stream].ssrc))
        } else {
            None
        }
    }

    /// Where the stream of `pt` and `ssrc` stands.
    fn find_stream(&self, pt: u8, ssrc: u32) -> (r: usize)
        ensures
            r == stream_position(self@.streams, pt, ssrc, 0),
            r <= self.streams@.len(),
    {
        let mut i: usize = 0;
        while i < self.streams.len()
            invariant
                i <= self.streams.len(),
                stream_position(self@.streams, pt, ssrc, 0) == stream_position(
                    self@.streams,
                    pt,
                    ssrc,
                    i as int,
                ),
            decreases self.streams.len() - i,
        {
            if self.streams[i].pt == pt && self.streams[i].ssrc == ssrc {
                return i;
            }
            i += 1;
        }
        i
    }

    /// Where the held packet `id` stands in the store.
    fn find_held(&self, id: usize) -> (r: usize)
        ensures
            r == held_position(self@.store, id, 0),
            r <= self.store@.len(),
    {
        let mut i: usize = 0;
        while i < self.store.len()
            invariant
                i <= self.store.len(),
                held_position(self.store@, id, 0) == held_position(self.store@, id, i as int),
            decreases self.store.len() - i,
        {
            if self.store[i].hold_id == id {
                return i;
            }
            i += 1;
        }
        i
    }

    /// Hands a packet to the jitter buffer of its stream.
    #[verifier::rlimit(50)]
    fn route(&mut self, held: Option<usize>, p: &RtpPacket, pts: u64, now: u64) -> (r: RecvAction)
        requires
            forall|j: int|
                0 <= j < old(self).streams@.len() ==> (#[trigger] old(self).streams@[j]).jitterbuffer.wf(),
        ensures
            forall|j: int|
                0 <= j < final(self).streams@.len() ==> (
                #[trigger] final(self).streams@[j]).jitterbuffer.wf(),
            final(self).session == old(self).session,
            r == routed(old(self)@.streams, old(self)@.latency, held, *p, pts, now).1,
            final(self)@ == (ReceiverView {
                streams: routed(old(self)@.streams, old(self)@.latency, held, *p, pts, now).0,
                ..old(self)@
            }),
    {
        let i = self.find_stream(p.payload_type, p.ssrc);
        let new_stream = i >= self.streams.len();
        if new_stream {
            let stream = RecvStream {
                pt: p.payload_type,
                ssrc: p.ssrc,
                active: false,
                jitterbuffer: JitterBuffer::new(self.latency),
            };
            self.streams.push(stream);
            proof {
                assert(self@.streams =~= old(self)@.streams.push(stream@));
                assert(stream@.jitterbuffer == empty_buffer(self.latency));
            }
        }
        let ghost all = self@.streams;
        if !self.streams[i].jitterbuffer.can_queue() {
            return RecvAction::Refused { held, stream: i, new_stream };
        }
        let ghost before = self.streams@;
        let result = self.streams[i].jitterbuffer.queue_packet(p, pts, now);
        proof {
            assert(self.streams@ =~= before.update(i as int, self.streams@[i as int]));
            assert(self@.streams =~= all.update(
                i as int,
                RecvStreamView {
                    jitterbuffer: packet_queued(
                        all[i as int].jitterbuffer,
                        p.sequence_number,
                        pts,
                        now,
                    ),
                    ..all[i as int]
                },
            ));
        }
        match result {
            QueueResult::Queued(id) => RecvAction::Queued { held, stream: i, new_stream, id },
            QueueResult::Late => RecvAction::Late { held, stream: i, new_stream },
            QueueResult::Duplicate => RecvAction::Duplicate { held, stream: i, new_stream },
        }
    }

    /// Acts on one reply of the session.
    fn act(&mut self, reply: RecvReply, p: &RtpPacket, pts: u64, now: u64) -> (r: RecvAction)
        requires
            forall|j: int|
                0 <= j < old(self).streams@.len() ==> (#[trigger] old(self).streams@[j]).jitterbuffer.wf(),
        ensures
            forall|j: int|
                0 <= j < final(self).streams@.len() ==> (
                #[trigger] final(self).streams@[j]).jitterbuffer.wf(),
            final(self).session == old(self).session,
            r == acted(old(self)@, reply, *p, pts, now).1,
            final(self)@ == acted(old(self)@, reply, *p, pts, now).0,
    {
        match reply {
            RecvReply::NewSsrc(ssrc, pt) => RecvAction::NewSsrc(ssrc, pt),
            RecvReply::SsrcCollision(ssrc) => RecvAction::SsrcCollision(ssrc),
            RecvReply::Ignore => RecvAction::Ignore,
            RecvReply::Hold(id) => {
                self.store.push(HeldPacket { hold_id: id, packet: *p, pts });
                RecvAction::Hold(id)
            },
            RecvReply::Drop(id) => {
                let k = self.find_held(id);
                if k < self.store.len() {
                    self.store.remove(k);
                    RecvAction::Drop(id)
                } else {
                    RecvAction::Missing(id)
                }
            },
            RecvReply::Forward(id) => {
                let k = self.find_held(id);
                if k < self.store.len() {
                    let h = self.store.remove(k);
                    self.route(Some(id), &h.packet, h.pts, now)
                } else {
                    RecvAction::Missing(id)
                }
            },
            RecvReply::Passthrough => self.route(None, p, pts, now),
        }
    }

    /// Takes in an RTP packet that arrived from `from` at `now`
    /// (nanoseconds) and has the presentation time `pts`, and tells what
    /// to do with it and with the packets that waited for it.
    #[verifier::rlimit(50)]
    pub fn receive_rtp(&mut self, packet: &RtpPacket, pts: u64, from: Option<Address>, now: u64) -> (r:
        Vec<RecvAction>)
        requires
            old(self).wf(),
        ensures
            final(self).wf(),
            r@ == rtp_received(old(self)@, *packet, pts, from, now).1,
            final(self)@ == rtp_received(old(self)@, *packet, pts, from, now).0,
            none_missing(r@),
    {
        proof {
            lemma_received_settled(old(self)@, *packet, pts, from, now);
        }
        let replies = self.session.handle_recv_all(packet, from, now);
        let ghost start = self@;
        let mut actions: Vec<RecvAction> = Vec::new();
        let mut i: usize = 0;
        while i < replies.len()
            invariant
                i <= replies.len(),
                self.session.wf(),
                forall|j: int|
                    0 <= j < self.streams@.len() ==> (#[trigger] self.streams@[j]).jitterbuffer.wf(),
                self@ == all_acted(start, replies@.take(i as int), *packet, pts, now).0,
                actions@ == all_acted(start, replies@.take(i as int), *packet, pts, now).1,
            decreases replies.len() - i,
        {
            proof {
                assert(replies@.take(i + 1).drop_last() =~= replies@.take(i as int));
            }
            let action = self.act(replies[i], packet, pts, now);
            actions.push(action);
            i += 1;
        }
        proof {
            assert(replies@.take(replies@.len() as int) =~= replies@);
        }
        actions
    }

    /// Asks the jitter buffers for the next entry at `now`.
    #[verifier::rlimit(50)]
    pub fn poll(&mut self, now: u64) -> (r: StreamPoll)
        requires
            old(self).wf(),
        ensures
            final(self).wf(),
            r == streams_polled(old(self)@.streams, now).1,
            final(self)@ == (ReceiverView {
                streams: streams_polled(old(self)@.streams, now).0,
                ..old(self)@
            }),
    {
        let mut lowest: Option<u64> = None;
        let mut i: usize = 0;
        let ghost all = self@.streams;
        while i < self.streams.len()
            invariant
                i <= self.streams.len(),
                self.wf(),
                self@ == old(self)@,
                all == self@.streams,
                first_ready(all, now, 0) == first_ready(all, now, i as int),
                lowest == earliest(all.take(i as int), now),
            decreases self.streams.len() - i,
        {
            proof {
                assert(all.take(i + 1).drop_last() =~= all.take(i as int));
                assert(all[i as int] == self.streams@[i as int]@);
            }
            if self.streams[i].active {
                let ghost before = self.streams@;
                let result = self.streams[i].jitterbuffer.poll(now);
                proof {
                    assert(self.streams@ =~= before.update(i as int, self.streams@[i as int]));
                }
                match result {
                    PollResult::Forward { id, discont } => {
                        proof {
                            assert(self@.streams =~= streams_polled(all, now).0);
                        }
                        return StreamPoll::Forward { stream: i, id, discont };
                    },
                    PollResult::Timeout(t) => {
                        lowest = match lowest {
                            Some(b) if b <= t => Some(b),
                            _ => Some(t),
                        };
                        proof {
                            assert(self@.streams =~= all);
                        }
                    },
                    PollResult::Empty => {
                        proof {
                            assert(self@.streams =~= all);
                        }
                    },
                }
            }
            i += 1;
        }
        proof {
            assert(all.take(all.len() as int) =~= all);
        }
        match lowest {
            Some(t) => StreamPoll::Timeout(t),
            None => StreamPoll::Pending,
        }
    }

    /// Reserves a place for a serialized item in the jitter buffer of
    /// each stream, and tells the stream and the id of each place.
    #[verifier::rlimit(50)]
    pub fn queue_serialized_item(&mut self) -> (r: Vec<(usize, usize)>)
        requires
            old(self).wf(),
        ensures
            final(self).wf(),
            r@ == serialized(old(self)@.streams).1,
            final(self)@ == (ReceiverView {
                streams: serialized(old(self)@.streams).0,
                ..old(self)@
            }),
    {
        let mut places: Vec<(usize, usize)> = Vec::new();
        let mut i: usize = 0;
        let ghost all = self@.streams;
        proof {
            assert(all.skip(0) =~= all);
            assert(self@.streams =~= serialized(all.take(0)).0 + all.skip(0));
        }
        while i < self.streams.len()
            invariant
                i <= self.streams.len(),
                self.wf(),
                all == old(self)@.streams,
                self.streams@.len() == all.len(),
                self@ == (ReceiverView { streams: self@.streams, ..old(self)@ }),
                self@.streams == serialized(all.take(i as int)).0 + all.skip(i as int),
                places@ == serialized(all.take(i as int)).1,
            decreases self.streams.len() - i,
        {
            proof {
                assert(all.take(i + 1).drop_last() =~= all.take(i as int));
                lemma_serialized_len(all.take(i as int));
                assert(self@.streams[i as int] == all[i as int]);
                assert(self@.streams[i as int] == self.streams@[i as int]@);
            }
            let ghost views = self@.streams;
            if self.streams[i].jitterbuffer.can_queue() {
                let ghost before = self.streams@;
                let result = self.streams[i].jitterbuffer.queue_serialized_item();
                proof {
                    assert(self.streams@ =~= before.update(i as int, self.streams@[i as int]));
                    assert(self@.streams =~= views.update(i as int, self.streams@[i as int]@));
                    assert(self.streams@[i as int]@ == (RecvStreamView {
                        jitterbuffer: item_queued(all[i as int].jitterbuffer),
                        ..all[i as int]
                    }));
                }
                match result {
                    QueueResult::Queued(id) => {
                        places.push((i, id));
                    },
                    _ => {},
                }
            }
            proof {
                let done = serialized(all.take(i + 1));
                let prior = serialized(all.take(i as int));
                assert(all.take(i + 1).last() == all[i as int]);
                assert(done.0.len() == i + 1) by {
                    lemma_serialized_len(all.take(i + 1));
                }
                assert forall|j: int| 0 <= j < all.len() implies self@.streams[j] == (done.0
                    + all.skip(i + 1))[j] by {
                    if j < i {
                        assert(views[j] == prior.0[j]);
                        assert(done.0[j] == prior.0[j]);
                    } else if j > i {
                        assert(views[j] == all[j]);
                    }
                }
                assert(self@.streams =~= done.0 + all.skip(i + 1));
            }
            i += 1;
        }
        proof {
            assert(all.take(all.len() as int) =~= all);
            assert(self@.streams =~= serialized(all).0);
        }
        places
    }

    /// Reserves a place for a serialized item in the jitter buffer of the
    /// stream at `stream`, and tells its id; `None` where there is no such
    /// stream or its jitter buffer takes no more entries.
    pub fn queue_serialized_item_in(&mut self, stream: usize) -> (r: Option<usize>)
        requires
            old(self).wf(),
        ensures
            final(self).wf(),
            r == serialized_in(old(self)@.streams, stream).1,
            final(self)@ == (ReceiverView {
                streams: serialized_in(old(self)@.streams, stream).0,
                ..old(self)@
            }),
    {
        if stream >= self.streams.len() {
            return None;
        }
        proof {
            assert(self@.streams[stream as int] == self.streams@[stream as int]@);
        }
        if !self.streams[stream].jitterbuffer.can_queue() {
            return None;
        }
        let ghost before = self.streams@;
        let result = self.streams[stream].jitterbuffer.queue_serialized_item();
        proof {
            assert(self.streams@ =~= before.update(stream as int, self.streams@[stream as int]));
            assert(self@.streams =~= serialized_in(old(self)@.streams, stream).0);
        }
        match result {
            QueueResult::Queued(id) => Some(id),
            _ => None,
        }
    }

    /// Notes whether the output of the stream at `stream` takes packets.
    /// Nothing changes where there is no such stream.
    pub fn set_active(&mut self, stream: usize, active: bool)
        requires
            old(self).wf(),
        ensures
            final(self).wf(),
            stream < old(self)@.streams.len() ==> final(self)@ == (ReceiverView {
                streams: old(self)@.streams.update(
                    stream as int,
                    RecvStreamView { active, ..old(self)@.streams[stream as int] },
                ),
                ..old(self)@
            }),
            stream >= old(self)@.streams.len() ==> final(self)@ == old(self)@,
    {
        if stream < self.streams.len() {
            let ghost before = self.streams@;
            self.streams[stream].active = active;
            proof {
                assert(self.streams@ =~= before.update(stream as int, self.streams@[stream as int]));
                assert(self@.streams =~= old(self)@.streams.update(
                    stream as int,
                    RecvStreamView { active, ..old(self)@.streams[stream as int] },
                ));
            }
        }
    }

    /// Forgets the received streams and the packets that wait: what the
    /// jitter buffers hold is lost, and the session holds no packet.
    pub fn clear(&mut self)
        requires
            old(self).wf(),
        ensures
            final(self).wf(),
            final(self)@ == (ReceiverView {
                session: SessionView { held: Seq::empty(), ..old(self)@.session },
                streams: Seq::empty(),
                store: Seq::empty(),
                ..old(self)@
            }),
    {
        self.session.clear_held();
        self.streams = Vec::new();
        self.store = Vec::new();
        proof {
            assert(self@.streams =~= Seq::<RecvStreamView>::empty());
        }
    }

    /// The counters of the jitter buffer of the stream at `stream`.
    pub fn jitterbuffer_stats(&self, stream: usize) -> (r: Option<crate::jitterbuffer::Stats>)
        ensures
            r == (if stream < self@.streams.len() {
                Some(self@.streams[stream as int].jitterbuffer.counters)
            } else {
                None
            }),
    {
        if stream < self.streams.len() {
            Some(self.streams[stream].jitterbuffer.stats())
        } else {
            None
        }
    }

    /// The packets that wait for their source to become valid.
    pub fn held_packets(&self) -> (r: usize)
        ensures
            r == self@.store.len(),
    {
        self.store.len()
    }
}

} // verus!

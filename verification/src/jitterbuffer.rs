//! A jitter buffer for one received stream: it holds packets and serialized
//! control items until their release time and hands them out in order.

use vstd::prelude::*;
use crate::packet::RtpPacket;
use crate::seqnum::{extended, highest_after, lemma_nearest_congruent, ExtendedSeqnum, SEQ_MOD};

verus! {

/// What became of a packet or item handed to the buffer.
#[derive(Debug, Clone, Copy, PartialEq, Eq, Structural)]
pub enum QueueResult {
    /// Held under this id until `poll` forwards it.
    Queued(usize),
    /// By its own timing it is due before the entry released last: dropped.
    Late,
    /// Its sequence number was accepted before: dropped.
    Duplicate,
}

/// What the buffer has for the caller at some instant.
#[derive(Debug, Clone, Copy, PartialEq, Eq, Structural)]
pub enum PollResult {
    /// The entry with this id leaves the buffer now.
    Forward { id: usize, discont: bool },
    /// Nothing is due before this instant.
    Timeout(u64),
    /// Nothing is held.
    Empty,
}

/// Where a stream stands between its first packet and a flush.
#[derive(Debug, Clone, Copy, PartialEq, Eq, Structural)]
pub enum StreamState {
    /// Nothing held, nothing released since the last flush.
    Idle,
    /// Entries are held and none was released yet.
    Buffering,
    /// Entries have been released.
    Steady,
}

/// One held packet or serialized item.
#[derive(Debug, Clone, Copy, PartialEq, Eq, Structural)]
pub struct Entry {
    /// Insertion id, handed out in increasing order.
    pub id: usize,
    /// Instant at which the entry may leave the buffer.
    pub release_time: u64,
    /// Extended sequence number of a packet; `None` for a serialized item.
    pub seqnum: Option<u64>,
}

/// A snapshot of the buffer's counters.
#[derive(Debug, Clone, Copy, PartialEq, Eq, Structural)]
pub struct Stats {
    /// Entries held right now.
    pub size: usize,
    /// Smoothed difference between arrival spacing and timestamp spacing.
    pub jitter: u64,
    /// Packets forwarded with the discontinuity mark.
    pub num_discont: u64,
    /// Packets dropped as late.
    pub num_late: u64,
    /// Packets dropped as duplicates.
    pub num_duplicates: u64,
    /// Entries forwarded.
    pub num_pushed: u64,
}

impl Stats {
    /// Packets that were handed in and never queued: the late ones and the
    /// duplicates. The count stops at the largest value.
    pub fn dropped(&self) -> (r: u64)
        ensures
            r == (if self.num_late + self.num_duplicates > u64::MAX {
                u64::MAX as int
            } else {
                self.num_late + self.num_duplicates
            }),
    {
        if self.num_duplicates > u64::MAX - self.num_late {
            u64::MAX
        } else {
            self.num_late + self.num_duplicates
        }
    }
}

/// Entries are ordered by release time, and by insertion among equal times.
pub open spec fn before(a: Entry, b: Entry) -> bool {
    a.release_time < b.release_time || (a.release_time == b.release_time && a.id < b.id)
}

/// Each entry comes strictly before every later one.
pub open spec fn ordered(s: Seq<Entry>) -> bool {
    forall|i: int, j: int| 0 <= i < j < s.len() ==> before(#[trigger] s[i], #[trigger] s[j])
}

/// No two packets of the sequence carry the same sequence number.
pub open spec fn distinct_seqnums(s: Seq<Entry>) -> bool {
    forall|i: int, j: int|
        0 <= i < j < s.len() && (#[trigger] s[i]).seqnum is Some ==> s[i].seqnum != (
        #[trigger] s[j]).seqnum
}

/// No two entries of the sequence carry the same id.
pub open spec fn distinct_ids(s: Seq<Entry>) -> bool {
    forall|i: int, j: int| 0 <= i < j < s.len() ==> (#[trigger] s[i]).id != (#[trigger] s[j]).id
}

/// A serialized item is never overtaken: of two entries of which one is a
/// serialized item, the one inserted first is released no later.
pub open spec fn items_keep_place(s: Seq<Entry>) -> bool {
    forall|i: int, j: int|
        0 <= i < s.len() && 0 <= j < s.len() && (#[trigger] s[i]).id < (#[trigger] s[j]).id && (
        s[i].seqnum is None || s[j].seqnum is None) ==> s[i].release_time <= s[j].release_time
}

/// Number of entries that are not due after `time`, in an ordered sequence:
/// the place at which a new entry with that release time goes in.
pub open spec fn rank(s: Seq<Entry>, time: u64) -> int
    decreases s.len(),
{
    if s.len() == 0 {
        0
    } else if s.last().release_time <= time {
        s.len() as int
    } else {
        rank(s.drop_last(), time)
    }
}

/// Every entry has an id below `next_id`, no serialized item is due after
/// `floor`, and the sequence number of every packet is in `seen`.
pub open spec fn entries_known(h: Seq<Entry>, next_id: usize, floor: u64, seen: Set<u64>) -> bool {
    forall|i: int|
        0 <= i < h.len() ==> {
            let e = #[trigger] h[i];
            &&& e.id < next_id
            &&& e.seqnum is None ==> e.release_time <= floor
            &&& e.seqnum is Some ==> seen.contains(e.seqnum->0)
        }
}

/// Every number of the list is in `seen`.
pub open spec fn all_seen(recent: Seq<u64>, seen: Set<u64>) -> bool {
    forall|i: int| 0 <= i < recent.len() ==> seen.contains(#[trigger] recent[i])
}

/// The list holds every number of `seen` that lies less than half a cycle
/// below the highest one: those are the only ones that a packet can still
/// extend to.
pub open spec fn window_kept(recent: Seq<u64>, seen: Set<u64>, highest: Option<u64>) -> bool {
    forall|s: u64| #[trigger]
        seen.contains(s) && highest is Some && s + SEQ_MOD / 2 > highest->0 ==> recent.contains(s)
}

/// The length from which the list of recent numbers is pruned: one cycle.
pub const RECENT_LIMIT: usize = 0x1_0000;

/// Whether `s` lies less than half a cycle below `highest`, or above it.
pub open spec fn within_window(highest: u64) -> spec_fn(u64) -> bool {
    |s: u64| s + SEQ_MOD / 2 > highest
}

/// The list of recent numbers after pruning. A list shorter than a cycle, or
/// one without a highest number, stays as it is; of any other, the numbers
/// within the window stay, in their order.
pub open spec fn pruned(recent: Seq<u64>, highest: Option<u64>) -> Seq<u64> {
    if recent.len() < RECENT_LIMIT || highest is None {
        recent
    } else {
        recent.filter(within_window(highest->0))
    }
}

/// A counter that stops at its largest value.
pub open spec fn bump(c: u64) -> u64 {
    if c < u64::MAX { (c + 1) as u64 } else { c }
}

/// The release time of a packet: its distance in presentation time from the
/// first packet, laid onto the arrival clock and delayed by the latency, but
/// never more than the latency after its own arrival, and never before the
/// last serialized item (`floor`). With a `floor` of zero this is the instant
/// at which the packet is due by its own timing.
pub open spec fn release_time_of(
    base: Option<(u64, u64)>,
    latency: u64,
    floor: u64,
    pts: u64,
    now: u64,
) -> u64 {
    let (base_now, base_pts) = match base {
        Some(b) => b,
        None => (now, pts),
    };
    let ahead: int = if pts >= base_pts { pts - base_pts } else { 0 };
    let ideal: int = base_now + ahead + latency;
    let cap: int = now + latency;
    let held: int = if ideal < cap { ideal } else { cap };
    let raised: int = if held < floor { floor as int } else { held };
    if raised > u64::MAX { u64::MAX } else { raised as u64 }
}

/// The release time of a serialized item: that of the last entry in front of it.
pub open spec fn item_release_time(queue: Seq<Entry>, release_point: Option<u64>, floor: u64) -> u64 {
    let a: u64 = match release_point {
        Some(p) => if p > floor { p } else { floor },
        None => floor,
    };
    if queue.len() > 0 && queue.last().release_time > a { queue.last().release_time } else { a }
}

/// The jitter estimate after one more packet: it moves a sixteenth of the way
/// towards the latest difference between arrival spacing and timestamp spacing.
pub open spec fn jitter_after(jitter: u64, last: Option<(u64, u64)>, pts: u64, now: u64) -> u64 {
    match last {
        None => jitter,
        Some((last_now, last_pts)) => {
            let d: int = (now - last_now) - (pts - last_pts);
            let d: int = if d < 0 { -d } else { d };
            if d >= jitter {
                let j: int = jitter + (d - jitter) / 16;
                if j > u64::MAX { u64::MAX } else { j as u64 }
            } else {
                (jitter - (jitter - d) / 16) as u64
            }
        },
    }
}

/// Whether a released packet breaks the run of sequence numbers.
pub open spec fn is_discont(last: Option<u64>, entry: Entry) -> bool {
    match (last, entry.seqnum) {
        (Some(l), Some(s)) => s != l + 1,
        _ => false,
    }
}

/// The state of a jitter buffer as contracts speak of it.
pub struct JitterBufferView {
    /// The entries held, in the order in which they will be released.
    pub queue: Seq<Entry>,
    /// Every entry released so far, in the order of release.
    pub released: Seq<Entry>,
    /// Every extended sequence number accepted so far.
    pub seen: Set<u64>,
    /// The release time of the entry released last.
    pub release_point: Option<u64>,
    /// The release time of the serialized item queued last.
    pub floor: u64,
    /// Arrival instant and presentation time of the first packet.
    pub base: Option<(u64, u64)>,
    pub latency: u64,
    /// The id that the next queued entry gets.
    pub next_id: usize,
    /// The highest extended sequence number that arrived.
    pub highest_seqnum: Option<u64>,
    /// Extended sequence number of the packet released last.
    pub last_output_seqnum: Option<u64>,
    /// Arrival instant and presentation time of the packet accepted last.
    pub last_arrival: Option<(u64, u64)>,
    pub shut_down: bool,
    /// Whether an entry was released since the last flush.
    pub steady: bool,
    pub counters: Stats,
}

/// The entry that a packet becomes when it is queued.
pub open spec fn entry_of(v: JitterBufferView, seq: u16, pts: u64, now: u64) -> Entry {
    Entry {
        id: v.next_id,
        release_time: release_time_of(v.base, v.latency, v.floor, pts, now),
        seqnum: Some(extended(v.highest_seqnum, seq as int, SEQ_MOD as int) as u64),
    }
}

/// What becomes of a packet that is handed to the buffer: a duplicate
/// where its sequence number was accepted before; else late where the
/// instant at which it is due by its own timing lies before the release time
/// of the entry released last, whether or not a serialized item waits; else
/// queued.
pub open spec fn outcome_of(v: JitterBufferView, seq: u16, pts: u64, now: u64) -> QueueResult {
    let entry = entry_of(v, seq, pts, now);
    if v.seen.contains(entry.seqnum->0) {
        QueueResult::Duplicate
    } else if v.release_point is Some && release_time_of(v.base, v.latency, 0, pts, now)
        < v.release_point->0 {
        QueueResult::Late
    } else {
        QueueResult::Queued(v.next_id)
    }
}

/// The buffer after a packet was handed to it.
pub open spec fn packet_queued(v: JitterBufferView, seq: u16, pts: u64, now: u64) -> JitterBufferView {
    let entry = entry_of(v, seq, pts, now);
    let highest = Some(highest_after(v.highest_seqnum, seq as int, SEQ_MOD as int) as u64);
    match outcome_of(v, seq, pts, now) {
        QueueResult::Duplicate => JitterBufferView {
            highest_seqnum: highest,
            counters: Stats { num_duplicates: bump(v.counters.num_duplicates), ..v.counters },
            ..v
        },
        QueueResult::Late => JitterBufferView {
            highest_seqnum: highest,
            counters: Stats { num_late: bump(v.counters.num_late), ..v.counters },
            ..v
        },
        QueueResult::Queued(_) => JitterBufferView {
            queue: v.queue.insert(rank(v.queue, entry.release_time), entry),
            seen: v.seen.insert(entry.seqnum->0),
            next_id: (v.next_id + 1) as usize,
            base: Some(
                match v.base {
                    Some(b) => b,
                    None => (now, pts),
                },
            ),
            highest_seqnum: highest,
            last_arrival: Some((now, pts)),
            counters: Stats {
                size: (v.queue.len() + 1) as usize,
                jitter: jitter_after(v.counters.jitter, v.last_arrival, pts, now),
                ..v.counters
            },
            ..v
        },
    }
}

/// The buffer after a place for a serialized item was reserved.
pub open spec fn item_queued(v: JitterBufferView) -> JitterBufferView {
    let time = item_release_time(v.queue, v.release_point, v.floor);
    JitterBufferView {
        queue: v.queue.push(Entry { id: v.next_id, release_time: time, seqnum: None }),
        floor: time,
        next_id: (v.next_id + 1) as usize,
        counters: Stats { size: (v.queue.len() + 1) as usize, ..v.counters },
        ..v
    }
}

/// What the buffer has at the instant `now`.
pub open spec fn poll_of(v: JitterBufferView, now: u64) -> PollResult {
    if v.queue.len() == 0 {
        PollResult::Empty
    } else if v.queue[0].release_time > now {
        PollResult::Timeout(v.queue[0].release_time)
    } else {
        PollResult::Forward {
            id: v.queue[0].id,
            discont: is_discont(v.last_output_seqnum, v.queue[0]),
        }
    }
}

/// The buffer after it was asked at the instant `now`.
pub open spec fn polled(v: JitterBufferView, now: u64) -> JitterBufferView {
    if poll_of(v, now) is Forward {
        let head = v.queue[0];
        JitterBufferView {
            queue: v.queue.skip(1),
            released: v.released.push(head),
            release_point: Some(head.release_time),
            steady: true,
            last_output_seqnum: if head.seqnum is Some {
                head.seqnum
            } else {
                v.last_output_seqnum
            },
            counters: Stats {
                size: (v.queue.len() - 1) as usize,
                num_pushed: bump(v.counters.num_pushed),
                num_discont: if is_discont(v.last_output_seqnum, head) {
                    bump(v.counters.num_discont)
                } else {
                    v.counters.num_discont
                },
                ..v.counters
            },
            ..v
        }
    } else {
        v
    }
}

/// An empty buffer with the given latency.
pub open spec fn empty_buffer(latency: u64) -> JitterBufferView {
    JitterBufferView {
        queue: Seq::empty(),
        released: Seq::empty(),
        seen: Set::empty(),
        release_point: None,
        floor: 0,
        base: None,
        latency,
        next_id: 0,
        highest_seqnum: None,
        last_output_seqnum: None,
        last_arrival: None,
        shut_down: false,
        steady: false,
        counters: Stats {
            size: 0,
            jitter: 0,
            num_discont: 0,
            num_late: 0,
            num_duplicates: 0,
            num_pushed: 0,
        },
    }
}

/// Whether a buffer takes one more entry: it is running and has an id left.
pub open spec fn takes(v: JitterBufferView) -> bool {
    !v.shut_down && v.next_id < usize::MAX
}

/// Where the stream of a buffer stands.
pub open spec fn stream_state(v: JitterBufferView) -> StreamState {
    if v.steady {
        StreamState::Steady
    } else if v.queue.len() > 0 {
        StreamState::Buffering
    } else {
        StreamState::Idle
    }
}

/// The buffer after what it held was discarded: the stream is idle again,
/// and the next packet is the first of a new run.
pub open spec fn flushed(v: JitterBufferView) -> JitterBufferView {
    JitterBufferView {
        queue: Seq::empty(),
        base: None,
        last_arrival: None,
        steady: false,
        counters: Stats { size: 0, ..v.counters },
        ..v
    }
}

/// The jitter buffer of one received stream.
pub struct JitterBuffer {
    latency: u64,
    next_id: usize,
    extended_seqnum: ExtendedSeqnum,
    /// Accepted sequence numbers that an arriving packet can still extend to.
    recent: Vec<u64>,
    items: Vec<Entry>,
    base: Option<(u64, u64)>,
    floor: u64,
    release_point: Option<u64>,
    last_output_seqnum: Option<u64>,
    last_arrival: Option<(u64, u64)>,
    jitter: u64,
    num_discont: u64,
    num_late: u64,
    num_duplicates: u64,
    num_pushed: u64,
    shut_down: bool,
    steady: bool,
    seen: Ghost<Set<u64>>,
    released: Ghost<Seq<Entry>>,
}

impl View for JitterBuffer {
    type V = JitterBufferView;

    closed spec fn view(&self) -> JitterBufferView {
        JitterBufferView {
            queue: self.items@,
            released: self.released@,
            seen: self.seen@,
            release_point: self.release_point,
            floor: self.floor,
            base: self.base,
            latency: self.latency,
            next_id: self.next_id,
            highest_seqnum: self.extended_seqnum.highest(),
            last_output_seqnum: self.last_output_seqnum,
            last_arrival: self.last_arrival,
            shut_down: self.shut_down,
            steady: self.steady,
            counters: Stats {
                size: self.items.len(),
                jitter: self.jitter,
                num_discont: self.num_discont,
                num_late: self.num_late,
                num_duplicates: self.num_duplicates,
                num_pushed: self.num_pushed,
            },
        }
    }
}

impl JitterBuffer {
    /// Everything that went in and was not dropped: released entries first.
    pub open spec fn history(&self) -> Seq<Entry> {
        self@.released + self@.queue
    }

    /// Whether one more entry can be queued: the buffer is running and has
    /// an id left.
    pub open spec fn accepts(&self) -> bool {
        takes(self@)
    }

    /// The buffer's invariant.
    pub closed spec fn wf(&self) -> bool {
        &&& self.extended_seqnum.wf()
        &&& ordered(self.history())
        &&& distinct_seqnums(self.history())
        &&& distinct_ids(self.history())
        &&& items_keep_place(self.history())
        &&& self.release_point == (if self.released@.len() == 0 {
            None
        } else {
            Some(self.released@.last().release_time)
        })
        &&& entries_known(self.history(), self.next_id, self.floor, self.seen@)
        &&& all_seen(self.recent@, self.seen@)
        &&& window_kept(self.recent@, self.seen@, self.extended_seqnum.highest())
        &&& self.seen@.len() > 0 ==> self.extended_seqnum.highest() is Some
        &&& self.seen@.finite()
    }

    /// An empty buffer that holds packets for `latency` nanoseconds.
    pub fn new(latency: u64) -> (r: Self)
        ensures
            r.wf(),
            r@ == empty_buffer(latency),
    {
        JitterBuffer {
            latency,
            next_id: 0,
            extended_seqnum: ExtendedSeqnum::new(),
            recent: Vec::new(),
            items: Vec::new(),
            base: None,
            floor: 0,
            release_point: None,
            last_output_seqnum: None,
            last_arrival: None,
            jitter: 0,
            num_discont: 0,
            num_late: 0,
            num_duplicates: 0,
            num_pushed: 0,
            shut_down: false,
            steady: false,
            seen: Ghost(Set::empty()),
            released: Ghost(Seq::empty()),
        }
    }
    /// The configured latency in nanoseconds.
    pub fn get_latency(&self) -> (r: u64)
        ensures
            r == self@.latency,
    {
        self.latency
    }

    /// Whether one more entry can be queued.
    pub fn can_queue(&self) -> (r: bool)
        ensures
            r == self.accepts(),
    {
        !self.shut_down && self.next_id < usize::MAX
    }

    /// Whether `shutdown` was called.
    pub fn has_shut_down(&self) -> (r: bool)
        ensures
            r == self@.shut_down,
    {
        self.shut_down
    }

    /// Stops the buffer: nothing may be queued from now on. What is held
    /// can still be polled.
    pub fn shutdown(&mut self)
        requires
            old(self).wf(),
        ensures
            final(self).wf(),
            final(self)@ == (JitterBufferView { shut_down: true, ..old(self)@ }),
    {
        self.shut_down = true;
    }
    /// Where the stream stands.
    pub fn state(&self) -> (r: StreamState)
        ensures
            r == stream_state(self@),
    {
        if self.steady {
            StreamState::Steady
        } else if self.items.len() > 0 {
            StreamState::Buffering
        } else {
            StreamState::Idle
        }
    }
    /// A snapshot of the counters.
    pub fn stats(&self) -> (r: Stats)
        ensures
            r == self@.counters,
            r.size == self@.queue.len(),
    {
        Stats {
            size: self.items.len(),
            jitter: self.jitter,
            num_discont: self.num_discont,
            num_late: self.num_late,
            num_duplicates: self.num_duplicates,
            num_pushed: self.num_pushed,
        }
    }
    /// Discards what is held and returns the stream to idle. Sequence
    /// numbers accepted so far stay known, and the release point stays.
    pub fn flush(&mut self)
        requires
            old(self).wf(),
        ensures
            final(self).wf(),
            final(self)@ == flushed(old(self)@),
    {
        proof {
            assert(self.released@ + Seq::<Entry>::empty() =~= self.released@);
            assert forall|i: int| 0 <= i < self.released@.len() implies self.released@[i]
                == self.history()[i] by {}
        }
        self.items = Vec::new();
        self.base = None;
        self.last_arrival = None;
        self.steady = false;
        proof {
            assert(self.history() =~= self.released@);
        }
    }
    /// Reserves a place for a serialized control item behind everything
    /// queued so far. The item is released when all of that has been
    /// released, and before anything queued later.
    #[verifier::rlimit(50)]
    pub fn queue_serialized_item(&mut self) -> (r: QueueResult)
        requires
            old(self).wf(),
            old(self).accepts(),
        ensures
            final(self).wf(),
            r == QueueResult::Queued(old(self)@.next_id),
            final(self)@ == item_queued(old(self)@),
    {
        let id = self.next_id;
        let mut time: u64 = self.floor;
        if let Some(p) = self.release_point {
            if p > time {
                time = p;
            }
        }
        let n = self.items.len();
        if n > 0 && self.items[n - 1].release_time > time {
            time = self.items[n - 1].release_time;
        }
        let entry = Entry { id, release_time: time, seqnum: None };
        proof {
            let h = self.history();
            let k = h.len() as int;
            assert forall|i: int| 0 <= i < k implies (#[trigger] h[i]).release_time <= time by {
                if i < self.released@.len() {
                    assert(h[i] == self.released@[i]);
                    if i < self.released@.len() - 1 {
                        assert(before(h[i], h[self.released@.len() - 1]));
                    }
                } else {
                    assert(h[i] == self.items@[i - self.released@.len()]);
                    if i < k - 1 {
                        assert(before(h[i], h[k - 1]));
                    }
                }
            }
            assert(h.push(entry) =~= self.released@ + self.items@.push(entry));
            lemma_insert_keeps_invariants(h, k, entry);
            assert(h.insert(k, entry) =~= h.push(entry));
        }
        self.next_id = id + 1;
        self.floor = time;
        self.items.push(entry);
        proof {
            let h2 = self.history();
            assert forall|i: int| 0 <= i < h2.len() - 1 implies #[trigger] h2[i] == old(
                self,
            ).history()[i] by {}
        }
        QueueResult::Queued(id)
    }
    /// Hands a packet to the buffer. `pts` is its presentation time and
    /// `now` the instant of the call, both in nanoseconds.
    ///
    /// A packet whose sequence number was accepted before is a duplicate.
    /// Otherwise a packet that by its own timing is due before the entry
    /// released last is late, also while a serialized item waits. Any other
    /// packet is queued at its place, no earlier than the last serialized
    /// item.
    #[verifier::rlimit(50)]
    pub fn queue_packet(&mut self, packet: &RtpPacket, pts: u64, now: u64) -> (r: QueueResult)
        requires
            old(self).wf(),
            old(self).accepts(),
        ensures
            final(self).wf(),
            r == outcome_of(old(self)@, packet.sequence_number, pts, now),
            final(self)@ == packet_queued(old(self)@, packet.sequence_number, pts, now),
    {
        let ghost before_highest = self.extended_seqnum.highest();
        let ext = self.extended_seqnum.next(packet.sequence_number);
        proof {
            if before_highest is Some {
                lemma_nearest_congruent(
                    before_highest->0 as int,
                    packet.sequence_number as int,
                    SEQ_MOD as int,
                );
            }
        }
        if contains(&self.recent, ext) {
            self.num_duplicates = if self.num_duplicates < u64::MAX {
                self.num_duplicates + 1
            } else {
                self.num_duplicates
            };
            return QueueResult::Duplicate;
        }
        assert(!self.seen@.contains(ext));
        let due = release_time(self.base, self.latency, 0, pts, now);
        if let Some(p) = self.release_point {
            if due < p {
                self.num_late = if self.num_late < u64::MAX {
                    self.num_late + 1
                } else {
                    self.num_late
                };
                return QueueResult::Late;
            }
        }
        let time = release_time(self.base, self.latency, self.floor, pts, now);
        let id = self.next_id;
        let entry = Entry { id, release_time: time, seqnum: Some(ext) };
        let place = place_of(&self.items, time);
        proof {
            lemma_packet_goes_in(
                self.released@,
                self.items@,
                place as int,
                entry,
                self.floor,
                self.seen@,
            );
        }
        self.next_id = id + 1;
        if self.base.is_none() {
            self.base = Some((now, pts));
        }
        self.jitter = next_jitter(self.jitter, self.last_arrival, pts, now);
        self.last_arrival = Some((now, pts));
        let highest = self.extended_seqnum.current();
        remember(&mut self.recent, ext, highest, Ghost(self.seen@));
        self.seen = Ghost(self.seen@.insert(ext));
        self.items.insert(place, entry);
        QueueResult::Queued(id)
    }
    /// Asks for the next entry at the instant `now`.
    ///
    /// The first entry of the queue is forwarded when its release time has
    /// come. Otherwise the answer is the instant at which it comes.
    #[verifier::rlimit(50)]
    pub fn poll(&mut self, now: u64) -> (r: PollResult)
        requires
            old(self).wf(),
        ensures
            final(self).wf(),
            r == poll_of(old(self)@, now),
            final(self)@ == polled(old(self)@, now),
    {
        if self.items.len() == 0 {
            return PollResult::Empty;
        }
        let head = self.items[0];
        if head.release_time > now {
            return PollResult::Timeout(head.release_time);
        }
        let discont = match (self.last_output_seqnum, head.seqnum) {
            (Some(l), Some(s)) => l == u64::MAX || s != l + 1,
            _ => false,
        };
        proof {
            assert(self.released@.push(head) + self.items@.remove(0) =~= self.history());
            assert(self.items@.remove(0) =~= self.items@.skip(1));
        }
        self.items.remove(0);
        self.released = Ghost(self.released@.push(head));
        self.release_point = Some(head.release_time);
        self.steady = true;
        if head.seqnum.is_some() {
            self.last_output_seqnum = head.seqnum;
        }
        self.num_pushed = if self.num_pushed < u64::MAX {
            self.num_pushed + 1
        } else {
            self.num_pushed
        };
        if discont {
            self.num_discont = if self.num_discont < u64::MAX {
                self.num_discont + 1
            } else {
                self.num_discont
            };
        }
        PollResult::Forward { id: head.id, discont }
    }
    /// Entries leave the buffer in the order of their release times, whatever
    /// the order in which they came: each released entry is due no later than
    /// every entry released after it, and entries due at the same instant
    /// leave in the order of insertion. What is still held comes after all
    /// that was released.
    #[verifier::rlimit(50)]
    pub proof fn lemma_release_order(&self)
        requires
            self.wf(),
        ensures
            ordered(self@.released),
            ordered(self@.queue),
            ordered(self.history()),
            forall|i: int, j: int|
                0 <= i < j < self@.released.len() ==> (#[trigger] self@.released[i]).release_time
                    <= (#[trigger] self@.released[j]).release_time,
            forall|i: int|
                0 <= i < self@.queue.len() && self@.release_point is Some
                    ==> self@.release_point->0 <= (#[trigger] self@.queue[i]).release_time,
            self@.release_point is Some <==> self@.released.len() > 0,
            self@.release_point is Some ==> self@.release_point->0
                == self@.released.last().release_time,
    {
        let h = self.history();
        let n = self@.released.len() as int;
        assert forall|i: int, j: int| 0 <= i < j < n implies before(
            #[trigger] self@.released[i],
            #[trigger] self@.released[j],
        ) by {
            assert(before(h[i], h[j]));
        }
        assert forall|i: int, j: int| 0 <= i < j < self@.queue.len() implies before(
            #[trigger] self@.queue[i],
            #[trigger] self@.queue[j],
        ) by {
            assert(before(h[n + i], h[n + j]));
        }
        assert forall|i: int|
            0 <= i < self@.queue.len() && self@.release_point is Some implies self@.release_point->0
            <= (#[trigger] self@.queue[i]).release_time by {
            assert(before(h[n - 1], h[n + i]));
        }
    }

    /// No packet is released twice: the packets released and held all carry
    /// different sequence numbers, and each of these numbers is known, so
    /// that a packet that brings one of them again is a duplicate.
    pub proof fn lemma_no_packet_twice(&self)
        requires
            self.wf(),
        ensures
            distinct_seqnums(self.history()),
            distinct_seqnums(self@.released),
            forall|i: int|
                0 <= i < self.history().len() && (#[trigger] self.history()[i]).seqnum is Some
                    ==> self@.seen.contains(self.history()[i].seqnum->0),
    {
        let h = self.history();
        assert forall|i: int, j: int|
            0 <= i < j < self@.released.len() && (#[trigger] self@.released[i]).seqnum
                is Some implies self@.released[i].seqnum != (#[trigger] self@.released[j]).seqnum by {
            assert(h[i] == self@.released[i] && h[j] == self@.released[j]);
        }
    }

    /// No id is given twice: the entries released and held all carry
    /// different ids, each below the id that comes next. So an entry that
    /// was forwarded is no longer held under its id, and no later call
    /// forwards that id again.
    pub proof fn lemma_ids_distinct(&self)
        requires
            self.wf(),
        ensures
            distinct_ids(self.history()),
            distinct_ids(self@.released),
            distinct_ids(self@.queue),
            forall|i: int|
                0 <= i < self.history().len() ==> (#[trigger] self.history()[i]).id
                    < self@.next_id,
            forall|i: int, j: int|
                0 <= i < self@.released.len() && 0 <= j < self@.queue.len() ==> (
                #[trigger] self@.released[i]).id != (#[trigger] self@.queue[j]).id,
    {
        let h = self.history();
        let n = self@.released.len() as int;
        assert forall|i: int, j: int| 0 <= i < j < n implies (#[trigger] self@.released[i]).id != (
        #[trigger] self@.released[j]).id by {
            assert(h[i] == self@.released[i] && h[j] == self@.released[j]);
        }
        assert forall|i: int, j: int| 0 <= i < j < self@.queue.len() implies (
        #[trigger] self@.queue[i]).id != (#[trigger] self@.queue[j]).id by {
            assert(h[n + i] == self@.queue[i] && h[n + j] == self@.queue[j]);
        }
        assert forall|i: int, j: int|
            0 <= i < n && 0 <= j < self@.queue.len() implies (#[trigger] self@.released[i]).id != (
        #[trigger] self@.queue[j]).id by {
            assert(h[i] == self@.released[i] && h[n + j] == self@.queue[j]);
        }
    }

    /// A serialized item keeps its place: of two entries of which one is a
    /// serialized item, the one that was queued first is also due first, and
    /// so leaves first.
    pub proof fn lemma_items_keep_place(&self)
        requires
            self.wf(),
        ensures
            items_keep_place(self.history()),
            forall|i: int, j: int|
                0 <= i < self.history().len() && 0 <= j < self.history().len() && (
                #[trigger] self.history()[i]).id < (#[trigger] self.history()[j]).id && (
                self.history()[i].seqnum is None || self.history()[j].seqnum is None) ==> i < j,
    {
        let h = self.history();
        assert forall|i: int, j: int|
            0 <= i < h.len() && 0 <= j < h.len() && (#[trigger] h[i]).id < (#[trigger] h[j]).id && (
            h[i].seqnum is None || h[j].seqnum is None) implies i < j by {
            if j < i {
                assert(before(h[j], h[i]));
            }
        }
    }
}

/// Whether `v` holds `x`.
fn contains(v: &Vec<u64>, x: u64) -> (r: bool)
    ensures
        r == v@.contains(x),
{
    let mut i: usize = 0;
    while i < v.len()
        invariant
            i <= v.len(),
            forall|j: int| 0 <= j < i ==> v@[j] != x,
        decreases v.len() - i,
    {
        if v[i] == x {
            return true;
        }
        i += 1;
    }
    false
}

/// Adds `ext` to the list of recent sequence numbers.
fn remember(recent: &mut Vec<u64>, ext: u64, highest: Option<u64>, Ghost(seen): Ghost<Set<u64>>)
    requires
        all_seen(old(recent)@, seen),
        window_kept(old(recent)@, seen, highest),
    ensures
        all_seen(final(recent)@, seen.insert(ext)),
        window_kept(final(recent)@, seen.insert(ext), highest),
{
    prune(recent, highest, Ghost(seen));
    let ghost pruned = recent@;
    recent.push(ext);
    proof {
        assert forall|s: u64| #[trigger]
            seen.insert(ext).contains(s) && highest is Some && s + SEQ_MOD / 2
                > highest->0 implies recent@.contains(s) by {
            if s == ext {
                assert(recent@[pruned.len() as int] == ext);
            } else {
                assert(seen.contains(s));
                let j = choose|j: int| 0 <= j < pruned.len() && pruned[j] == s;
                assert(recent@[j] == s);
            }
        }
    }
}

/// Drops from `recent` the sequence numbers that lie half a cycle or more
/// below the highest one, once the list has grown to a full cycle.
#[verifier::rlimit(50)]
fn prune(recent: &mut Vec<u64>, highest: Option<u64>, Ghost(seen): Ghost<Set<u64>>)
    requires
        all_seen(old(recent)@, seen),
        window_kept(old(recent)@, seen, highest),
    ensures
        final(recent)@ == pruned(old(recent)@, highest),
        all_seen(final(recent)@, seen),
        window_kept(final(recent)@, seen, highest),
{
    if recent.len() < RECENT_LIMIT {
        return;
    }
    let h: u64 = match highest {
        Some(h) => h,
        None => { return; },
    };
    let mut kept: Vec<u64> = Vec::new();
    let mut i: usize = 0;
    proof {
        broadcast use vstd::seq_lib::group_filter_ensures;

        assert(recent@.take(0) =~= Seq::<u64>::empty());
        assert(kept@ =~= recent@.take(0).filter(within_window(h)));
    }
    while i < recent.len()
        invariant
            i <= recent.len(),
            recent@ == old(recent)@,
            all_seen(recent@, seen),
            all_seen(kept@, seen),
            kept@ == recent@.take(i as int).filter(within_window(h)),
            forall|j: int|
                0 <= j < i && (#[trigger] recent@[j]) + SEQ_MOD / 2 > h ==> kept@.contains(
                    recent@[j],
                ),
        decreases recent.len() - i,
    {
        let s = recent[i];
        proof {
            assert(recent@.take(i + 1) =~= recent@.take(i as int).push(s));
            recent@.take(i as int).lemma_filter_push(s, within_window(h));
        }
        if s > h || h - s < 0x8000 {
            let ghost before = kept@;
            kept.push(s);
            proof {
                assert(kept@[kept@.len() - 1] == s);
                assert forall|j: int|
                    0 <= j < i + 1 && (#[trigger] recent@[j]) + SEQ_MOD / 2
                        > h implies kept@.contains(recent@[j]) by {
                    if j < i {
                        let w = choose|w: int| 0 <= w < before.len() && before[w] == recent@[j];
                        assert(kept@[w] == recent@[j]);
                    }
                }
            }
        }
        i += 1;
    }
    proof {
        assert forall|s: u64| #[trigger]
            seen.contains(s) && highest is Some && s + SEQ_MOD / 2 > highest->0 implies kept@.contains(
            s,
        ) by {
            let j = choose|j: int| 0 <= j < recent@.len() && recent@[j] == s;
            assert(recent@[j] == s);
        }
        assert(recent@.take(i as int) =~= recent@);
    }
    *recent = kept;
}

/// The place at which an entry due at `time` goes into `items`.
fn place_of(items: &Vec<Entry>, time: u64) -> (r: usize)
    ensures
        r == rank(items@, time),
        r <= items@.len(),
        forall|j: int| r <= j < items@.len() ==> (#[trigger] items@[j]).release_time > time,
        r > 0 ==> items@[r - 1].release_time <= time,
{
    let mut i: usize = items.len();
    proof {
        assert(items@.take(i as int) =~= items@);
    }
    while i > 0 && items[i - 1].release_time > time
        invariant
            i <= items.len(),
            rank(items@, time) == rank(items@.take(i as int), time),
            forall|j: int| i <= j < items@.len() ==> (#[trigger] items@[j]).release_time > time,
        decreases i,
    {
        proof {
            assert(items@.take(i as int).drop_last() =~= items@.take(i - 1));
        }
        i -= 1;
    }
    i
}

/// Computes `release_time_of`.
fn release_time(base: Option<(u64, u64)>, latency: u64, floor: u64, pts: u64, now: u64) -> (r: u64)
    ensures
        r == release_time_of(base, latency, floor, pts, now),
{
    let (base_now, base_pts) = match base {
        Some(b) => b,
        None => (now, pts),
    };
    let ahead: u64 = if pts >= base_pts { pts - base_pts } else { 0 };
    let ideal: u128 = base_now as u128 + ahead as u128 + latency as u128;
    let cap: u128 = now as u128 + latency as u128;
    let held: u128 = if ideal < cap { ideal } else { cap };
    let raised: u128 = if held < floor as u128 { floor as u128 } else { held };
    if raised > u64::MAX as u128 { u64::MAX } else { raised as u64 }
}

/// Computes `jitter_after`.
fn next_jitter(jitter: u64, last: Option<(u64, u64)>, pts: u64, now: u64) -> (r: u64)
    ensures
        r == jitter_after(jitter, last, pts, now),
{
    match last {
        None => jitter,
        Some((last_now, last_pts)) => {
            let d: i128 = (now as i128 - last_now as i128) - (pts as i128 - last_pts as i128);
            let d: i128 = if d < 0 { -d } else { d };
            if d >= jitter as i128 {
                let j: i128 = jitter as i128 + (d - jitter as i128) / 16;
                if j > u64::MAX as i128 { u64::MAX } else { j as u64 }
            } else {
                (jitter as i128 - (jitter as i128 - d) / 16) as u64
            }
        },
    }
}

/// Packets leave in the order of their presentation times where the later
/// one is not held back by the limit of one latency after its arrival: it
/// arrived no earlier than its distance in presentation time from the first
/// packet asks for. Then the earlier one is due no later, and strictly
/// earlier where neither lies before the first packet in presentation time
/// and the later one is due after the last serialized item. Packets that arrive in
/// a burst are all due one latency after their arrival, and leave in the
/// order in which they came.
pub proof fn lemma_presentation_order(
    base: (u64, u64),
    latency: u64,
    floor_a: u64,
    pts_a: u64,
    now_a: u64,
    floor_b: u64,
    pts_b: u64,
    now_b: u64,
)
    requires
        pts_a <= pts_b,
        floor_a <= floor_b,
        pts_b >= base.1 ==> base.0 + (pts_b - base.1) <= now_b,
        pts_b < base.1 ==> base.0 <= now_b,
    ensures
        release_time_of(Some(base), latency, floor_a, pts_a, now_a) <= release_time_of(
            Some(base),
            latency,
            floor_b,
            pts_b,
            now_b,
        ),
        base.1 <= pts_a < pts_b && floor_a < base.0 + (pts_b - base.1) + latency && base.0
            + (pts_b - base.1) + latency <= u64::MAX ==> release_time_of(Some(base), latency, floor_a, pts_a, now_a)
            < release_time_of(Some(base), latency, floor_b, pts_b, now_b),
{
    let ahead_a: int = if pts_a >= base.1 { pts_a - base.1 } else { 0 };
    let ahead_b: int = if pts_b >= base.1 { pts_b - base.1 } else { 0 };
    let ideal_a: int = base.0 + ahead_a + latency;
    let ideal_b: int = base.0 + ahead_b + latency;
    let held_a: int = if ideal_a < now_a + latency { ideal_a } else { now_a + latency };
    assert(ahead_a <= ahead_b);
    assert(held_a <= ideal_a <= ideal_b);
    assert(ideal_b <= now_b + latency);
    if base.1 <= pts_a < pts_b && floor_a < ideal_b && ideal_b <= u64::MAX {
        assert(ahead_a < ahead_b);
        assert(held_a < ideal_b);
    }
}

/// A packet that is neither a duplicate nor late goes into the queue at its
/// rank, and everything the buffer relies on still holds.
#[verifier::rlimit(50)]
proof fn lemma_packet_goes_in(
    released: Seq<Entry>,
    items: Seq<Entry>,
    place: int,
    entry: Entry,
    floor: u64,
    seen: Set<u64>,
)
    requires
        ordered(released + items),
        distinct_seqnums(released + items),
        distinct_ids(released + items),
        items_keep_place(released + items),
        entries_known(released + items, entry.id, floor, seen),
        0 <= place <= items.len(),
        forall|j: int|
            place <= j < items.len() ==> (#[trigger] items[j]).release_time > entry.release_time,
        place > 0 ==> items[place - 1].release_time <= entry.release_time,
        released.len() > 0 ==> released.last().release_time <= entry.release_time,
        entry.release_time >= floor,
        entry.seqnum is Some,
        !seen.contains(entry.seqnum->0),
        entry.id < usize::MAX,
    ensures
        ordered(released + items.insert(place, entry)),
        distinct_seqnums(released + items.insert(place, entry)),
        distinct_ids(released + items.insert(place, entry)),
        items_keep_place(released + items.insert(place, entry)),
        entries_known(
            released + items.insert(place, entry),
            (entry.id + 1) as usize,
            floor,
            seen.insert(entry.seqnum->0),
        ),
{
    let h = released + items;
    let k = released.len() + place;
    assert forall|i: int| 0 <= i < k implies before(#[trigger] h[i], entry) by {
        if i < released.len() {
            assert(h[i] == released[i]);
            if i < released.len() - 1 {
                assert(before(h[i], h[released.len() - 1]));
            }
        } else {
            assert(h[i] == items[i - released.len()]);
            if i < k - 1 {
                assert(before(h[i], h[k - 1]));
            }
        }
    }
    assert forall|i: int| k <= i < h.len() implies before(entry, #[trigger] h[i]) by {
        assert(h[i] == items[i - released.len()]);
    }
    lemma_insert_keeps_invariants(h, k, entry);
    let h2 = released + items.insert(place, entry);
    assert(h2 =~= h.insert(k, entry));
    assert forall|i: int| 0 <= i < h2.len() implies {
        let e = #[trigger] h2[i];
        &&& e.id < entry.id + 1
        &&& e.seqnum is None ==> e.release_time <= floor
        &&& e.seqnum is Some ==> seen.insert(entry.seqnum->0).contains(e.seqnum->0)
    } by {
        if i < k {
            assert(h2[i] == h[i]);
        } else if i > k {
            assert(h2[i] == h[i - 1]);
        }
    }
}

/// Putting an entry between the entries that come before it and those that
/// come after it keeps the order; it keeps sequence numbers distinct when
/// the entry brings a new one, ids distinct when its id is above all others,
/// and serialized items in place when the entry is the newest and not due
/// before any of them.
#[verifier::rlimit(50)]
pub proof fn lemma_insert_keeps_invariants(h: Seq<Entry>, k: int, e: Entry)
    requires
        ordered(h),
        distinct_seqnums(h),
        distinct_ids(h),
        items_keep_place(h),
        0 <= k <= h.len(),
        forall|i: int| 0 <= i < k ==> before(#[trigger] h[i], e),
        forall|i: int| k <= i < h.len() ==> before(e, #[trigger] h[i]),
        forall|i: int| 0 <= i < h.len() ==> (#[trigger] h[i]).id < e.id,
        forall|i: int| 0 <= i < h.len() && e.seqnum is Some ==> (#[trigger] h[i]).seqnum != e.seqnum,
        forall|i: int|
            0 <= i < h.len() && ((#[trigger] h[i]).seqnum is None || e.seqnum is None)
                ==> h[i].release_time <= e.release_time,
    ensures
        ordered(h.insert(k, e)),
        distinct_seqnums(h.insert(k, e)),
        distinct_ids(h.insert(k, e)),
        items_keep_place(h.insert(k, e)),
{
    let n = h.insert(k, e);
    assert forall|i: int, j: int| 0 <= i < j < n.len() implies (#[trigger] n[i]).id != (
    #[trigger] n[j]).id by {
        let a = if i < k { i } else { i - 1 };
        let b = if j < k { j } else { j - 1 };
        if i != k && j != k {
            assert(n[i] == h[a] && n[j] == h[b]);
        } else if i == k {
            assert(n[j] == h[b]);
        } else {
            assert(n[i] == h[a]);
        }
    }
    assert forall|i: int, j: int| 0 <= i < j < n.len() implies before(
        #[trigger] n[i],
        #[trigger] n[j],
    ) by {
        let a = if i < k { i } else { i - 1 };
        let b = if j < k { j } else { j - 1 };
        if i != k && j != k {
            assert(n[i] == h[a] && n[j] == h[b]);
            assert(before(h[a], h[b]));
        } else if i == k {
            assert(n[j] == h[b]);
        } else {
            assert(n[i] == h[a]);
        }
    }
    assert forall|i: int, j: int|
        0 <= i < j < n.len() && (#[trigger] n[i]).seqnum is Some implies n[i].seqnum != (
    #[trigger] n[j]).seqnum by {
        let a = if i < k { i } else { i - 1 };
        let b = if j < k { j } else { j - 1 };
        if i != k && j != k {
            assert(n[i] == h[a] && n[j] == h[b]);
        } else if i == k {
            assert(n[j] == h[b]);
        } else {
            assert(n[i] == h[a]);
        }
    }
    assert forall|i: int, j: int|
        0 <= i < n.len() && 0 <= j < n.len() && (#[trigger] n[i]).id < (#[trigger] n[j]).id && (
        n[i].seqnum is None || n[j].seqnum is None) implies n[i].release_time
        <= n[j].release_time by {
        let a = if i < k { i } else { i - 1 };
        let b = if j < k { j } else { j - 1 };
        if i != k && j != k {
            assert(n[i] == h[a] && n[j] == h[b]);
        } else if i == k {
            if j != k {
                assert(n[j] == h[b]);
            }
        } else {
            assert(n[i] == h[a]);
        }
    }
}

} // verus!

//! The decisions of a multiplexer for ancillary data: which packets belong
//! to the frame at hand, which of them go out where their places on a line
//! overlap, and where the next frame starts.

use vstd::prelude::*;

verus! {

/// Nanoseconds in a second.
pub const SECOND: u64 = 1_000_000_000;

/// How far the position moves where nothing tells it: 40 ms, a frame at
/// 25 frames per second.
pub const DEFAULT_STEP: u64 = 40_000_000;

/// The duration of a frame at `numer / denom` frames per second in
/// nanoseconds, rounded to the nearest; `None` where the rate is not
/// positive.
pub open spec fn frame_duration_of(numer: i32, denom: i32) -> Option<u64> {
    if numer <= 0 || denom <= 0 {
        None
    } else {
        Some(((SECOND * denom + numer / 2) / (numer as int)) as u64)
    }
}

/// Computes `frame_duration_of`.
pub fn frame_duration(numer: i32, denom: i32) -> (r: Option<u64>)
    ensures
        r == frame_duration_of(numer, denom),
{
    if numer <= 0 || denom <= 0 {
        None
    } else {
        let n: u128 = SECOND as u128 * denom as u128 + (numer / 2) as u128;
        let d: u128 = n / (numer as u128);
        assert(d <= n) by (nonlinear_arith)
            requires
                d == n / (numer as u128),
                numer >= 1,
                n >= 0,
        ;
        Some(d as u64)
    }
}

/// The time span of the frame at hand.
#[derive(Debug, Clone, Copy, PartialEq, Eq, Structural)]
pub struct Window {
    pub start: u64,
    pub end: u64,
    /// The duration of a frame; 0 where no frame rate is known.
    pub duration: u64,
}

/// The frame at hand: it starts at the position of the output, or at the
/// start of the segment where the position is before that or not set, and
/// lasts a frame. The end stops at the largest value.
pub open spec fn window_of(position: Option<u64>, segment_start: u64, duration: u64) -> Window {
    let start = match position {
        Some(p) if p >= segment_start => p,
        _ => segment_start,
    };
    Window {
        start,
        end: if start + duration > u64::MAX { u64::MAX } else { (start + duration) as u64 },
        duration,
    }
}

/// Computes `window_of`.
pub fn window(position: Option<u64>, segment_start: u64, duration: u64) -> (r: Window)
    ensures
        r == window_of(position, segment_start, duration),
{
    let start = match position {
        Some(p) if p >= segment_start => p,
        _ => segment_start,
    };
    Window {
        start,
        end: if duration > u64::MAX - start { u64::MAX } else { start + duration },
        duration,
    }
}

/// Whether a packet that starts at `time` belongs to a later frame: it
/// starts behind the end of the frame at hand, or at its end where the
/// frame has a duration.
pub fn is_for_later(w: &Window, time: u64) -> (r: bool)
    ensures
        r == (time > w.end || (w.end > w.start && time == w.end)),
{
    time > w.end || (w.end > w.start && time == w.end)
}

/// What the multiplexer does once it has looked at all inputs.
#[derive(Debug, Clone, Copy, PartialEq, Eq, Structural)]
pub enum Verdict {
    /// Some input may still bring a packet for the frame: wait for it.
    NeedData,
    /// All inputs have ended and nothing waits: the output ends.
    Eos,
    /// The frame goes out.
    Output,
}

/// Decides what to do. `all_done` tells that no input can bring another
/// packet for the frame, `all_eos` that all inputs have ended and nothing
/// waits, `timeout` that the time to wait has run out.
pub fn verdict(all_done: bool, all_eos: bool, timeout: bool) -> (r: Verdict)
    ensures
        r == (if !all_done && !timeout {
            Verdict::NeedData
        } else if all_eos {
            Verdict::Eos
        } else {
            Verdict::Output
        }),
{
    if !all_done && !timeout {
        Verdict::NeedData
    } else if all_eos {
        Verdict::Eos
    } else {
        Verdict::Output
    }
}

/// The duration of the gap that goes out where the frame holds nothing:
/// that of a frame, or without a frame rate the time until the next
/// packet, where one is known.
pub fn gap_duration(w: &Window, next: Option<u64>) -> (r: u64)
    ensures
        r == (match next {
            Some(n) if w.duration == 0 && n >= w.start => (n - w.start) as u64,
            _ => w.duration,
        }),
{
    match next {
        Some(n) if w.duration == 0 && n >= w.start => n - w.start,
        _ => w.duration,
    }
}

/// Where the output stands after the frame: at the end of the frame where
/// frames have a duration, else at the start of the next packet where one
/// is known, else a default step behind the position, where there is one.
pub fn next_position(w: &Window, next: Option<u64>, position: Option<u64>) -> (r: Option<u64>)
    ensures
        r == (if w.duration > 0 {
            Some(w.end)
        } else {
            match (next, position) {
                (Some(n), _) => Some(n),
                (None, Some(p)) => Some(
                    if p + DEFAULT_STEP > u64::MAX {
                        u64::MAX
                    } else {
                        (p + DEFAULT_STEP) as u64
                    },
                ),
                (None, None) => None,
            }
        }),
{
    if w.duration > 0 {
        Some(w.end)
    } else {
        match (next, position) {
            (Some(n), _) => Some(n),
            (None, Some(p)) => Some(
                if p > u64::MAX - DEFAULT_STEP {
                    u64::MAX
                } else {
                    p + DEFAULT_STEP
                },
            ),
            (None, None) => None,
        }
    }
}

/// One packet of ancillary data with its place on a line.
#[derive(Debug, Clone, Copy, PartialEq, Eq, Structural)]
pub struct Placed {
    pub line: u16,
    /// Where on the line the packet starts.
    pub offset: u16,
    /// Number of words that the packet takes.
    pub count: u16,
    /// What the caller knows the packet by.
    pub token: usize,
}

/// Where on the line the packet ends.
pub open spec fn end_of(p: Placed) -> int {
    p.offset + p.count
}

/// Whether two packets share words of one line: the start of one lies
/// within the other.
pub open spec fn overlap(a: Placed, b: Placed) -> bool {
    a.line == b.line && ((b.offset <= a.offset < end_of(b)) || (a.offset <= b.offset < end_of(a)))
}

/// Whether `a` comes before `b` on the frame: on an earlier line, or
/// earlier on the same line.
pub open spec fn precedes(a: Placed, b: Placed) -> bool {
    a.line < b.line || (a.line == b.line && a.offset < b.offset)
}

/// Each packet comes before every later one.
pub open spec fn in_order(s: Seq<Placed>) -> bool {
    forall|i: int, j: int| 0 <= i < j < s.len() ==> precedes(#[trigger] s[i], #[trigger] s[j])
}

/// Whether some packet of the list shares words with `p`.
pub open spec fn blocked(s: Seq<Placed>, p: Placed) -> bool {
    exists|i: int| 0 <= i < s.len() && overlap(p, #[trigger] s[i])
}

/// Number of packets of an ordered list that come before `p`.
pub open spec fn place(s: Seq<Placed>, p: Placed) -> int
    decreases s.len(),
{
    if s.len() == 0 {
        0
    } else if precedes(s.last(), p) {
        s.len() as int
    } else {
        place(s.drop_last(), p)
    }
}

/// The packets that go out after one more was offered: it is passed over
/// where it shares words with one that is in; else it goes in at its
/// place, instead of one that starts at the same word where there is one.
pub open spec fn offered(s: Seq<Placed>, p: Placed) -> Seq<Placed> {
    let k = place(s, p);
    if blocked(s, p) {
        s
    } else if k < s.len() && s[k].line == p.line && s[k].offset == p.offset {
        s.update(k, p)
    } else {
        s.insert(k, p)
    }
}

/// The packets that go out of those that were offered, in the order of
/// the offers: who is offered first stays, who comes later and shares
/// words with one that is in is passed over.
pub open spec fn merged(offers: Seq<Placed>) -> Seq<Placed>
    decreases offers.len(),
{
    if offers.len() == 0 {
        Seq::empty()
    } else {
        offered(merged(offers.drop_last()), offers.last())
    }
}

/// Offering a packet keeps the packets in order.
#[verifier::rlimit(50)]
pub proof fn lemma_offered_in_order(s: Seq<Placed>, p: Placed)
    requires
        in_order(s),
    ensures
        in_order(offered(s, p)),
        0 <= place(s, p) <= s.len(),
        forall|i: int| 0 <= i < place(s, p) ==> precedes(#[trigger] s[i], p),
        forall|i: int| place(s, p) <= i < s.len() ==> !precedes(#[trigger] s[i], p),
{
    lemma_place(s, p);
    let k = place(s, p);
    let r = offered(s, p);
    if blocked(s, p) {
    } else if k < s.len() && s[k].line == p.line && s[k].offset == p.offset {
        assert forall|i: int, j: int| 0 <= i < j < r.len() implies precedes(
            #[trigger] r[i],
            #[trigger] r[j],
        ) by {
            assert(precedes(s[i], s[j]));
        }
    } else {
        assert forall|i: int, j: int| 0 <= i < j < r.len() implies precedes(
            #[trigger] r[i],
            #[trigger] r[j],
        ) by {
            let a = if i < k { i } else { i - 1 };
            let b = if j < k { j } else { j - 1 };
            if i != k && j != k {
                assert(r[i] == s[a] && r[j] == s[b]);
                assert(precedes(s[a], s[b]));
            } else if i == k {
                assert(r[j] == s[b]);
                assert(!precedes(s[b], p));
                if b > k {
                    assert(precedes(s[k], s[b]));
                }
            } else {
                assert(r[i] == s[a]);
            }
        }
    }
}

/// The place of a packet in an ordered list parts those that come before
/// it from the others.
#[verifier::rlimit(50)]
pub proof fn lemma_place(s: Seq<Placed>, p: Placed)
    requires
        in_order(s),
    ensures
        0 <= place(s, p) <= s.len(),
        forall|i: int| 0 <= i < place(s, p) ==> precedes(#[trigger] s[i], p),
        forall|i: int| place(s, p) <= i < s.len() ==> !precedes(#[trigger] s[i], p),
    decreases s.len(),
{
    if s.len() > 0 {
        let d = s.drop_last();
        assert(in_order(d)) by {
            assert forall|i: int, j: int| 0 <= i < j < d.len() implies precedes(
                #[trigger] d[i],
                #[trigger] d[j],
            ) by {
                assert(precedes(s[i], s[j]));
            }
        }
        lemma_place(d, p);
        if precedes(s.last(), p) {
            assert forall|i: int| 0 <= i < s.len() implies precedes(#[trigger] s[i], p) by {
                if i < s.len() - 1 {
                    assert(precedes(s[i], s[s.len() - 1]));
                }
            }
        } else {
            assert forall|i: int| place(s, p) <= i < s.len() implies !precedes(
                #[trigger] s[i],
                p,
            ) by {
                if i < d.len() {
                    assert(d[i] == s[i]);
                }
            }
            assert forall|i: int| 0 <= i < place(s, p) implies precedes(#[trigger] s[i], p) by {
                assert(d[i] == s[i]);
            }
        }
    }
}

/// No two packets of the list share words.
pub open spec fn disjoint(s: Seq<Placed>) -> bool {
    forall|i: int, j: int| 0 <= i < j < s.len() ==> !overlap(#[trigger] s[i], #[trigger] s[j])
}

/// No two packets that go out share words of a line.
#[verifier::rlimit(50)]
pub proof fn lemma_merged_disjoint(offers: Seq<Placed>)
    ensures
        disjoint(merged(offers)),
    decreases offers.len(),
{
    if offers.len() > 0 {
        lemma_merged_disjoint(offers.drop_last());
        lemma_merged_in_order(offers.drop_last());
        let s = merged(offers.drop_last());
        let p = offers.last();
        let r = offered(s, p);
        let k = place(s, p);
        lemma_place(s, p);
        if blocked(s, p) {
        } else if k < s.len() && s[k].line == p.line && s[k].offset == p.offset {
            assert forall|i: int, j: int| 0 <= i < j < r.len() implies !overlap(
                #[trigger] r[i],
                #[trigger] r[j],
            ) by {
                assert(!overlap(s[i], s[j]));
                assert(!overlap(p, s[i]));
                assert(!overlap(p, s[j]));
            }
        } else {
            assert forall|i: int, j: int| 0 <= i < j < r.len() implies !overlap(
                #[trigger] r[i],
                #[trigger] r[j],
            ) by {
                let a = if i < k { i } else { i - 1 };
                let b = if j < k { j } else { j - 1 };
                if i != k && j != k {
                    assert(r[i] == s[a] && r[j] == s[b]);
                    assert(!overlap(s[a], s[b]));
                } else if i == k {
                    assert(r[j] == s[b]);
                    assert(!overlap(p, s[b]));
                } else {
                    assert(r[i] == s[a]);
                    assert(!overlap(p, s[a]));
                }
            }
        }
    }
}

/// What goes out is in order: line after line, and along each line.
pub proof fn lemma_merged_in_order(offers: Seq<Placed>)
    ensures
        in_order(merged(offers)),
    decreases offers.len(),
{
    if offers.len() > 0 {
        lemma_merged_in_order(offers.drop_last());
        lemma_offered_in_order(merged(offers.drop_last()), offers.last());
    }
}

/// Works out which of the offered packets go out (see `merged`). The
/// offers come in the order of their rank: the first has the first claim
/// to its words.
pub fn merge(offers: &Vec<Placed>) -> (r: Vec<Placed>)
    ensures
        r@ == merged(offers@),
        in_order(r@),
{
    let mut out: Vec<Placed> = Vec::new();
    let mut i: usize = 0;
    while i < offers.len()
        invariant
            i <= offers.len(),
            out@ == merged(offers@.take(i as int)),
            in_order(out@),
        decreases offers.len() - i,
    {
        proof {
            assert(offers@.take(i + 1).drop_last() =~= offers@.take(i as int));
            lemma_offered_in_order(out@, offers@[i as int]);
        }
        offer(&mut out, offers[i]);
        i += 1;
    }
    proof {
        assert(offers@.take(offers@.len() as int) =~= offers@);
    }
    out
}

/// Offers one packet to those that are in.
#[verifier::rlimit(50)]
fn offer(out: &mut Vec<Placed>, p: Placed)
    requires
        in_order(old(out)@),
    ensures
        final(out)@ == offered(old(out)@, p),
{
    let end: u32 = p.offset as u32 + p.count as u32;
    let mut i: usize = 0;
    while i < out.len()
        invariant
            i <= out.len(),
            out@ == old(out)@,
            end == end_of(p),
            forall|j: int| 0 <= j < i ==> !overlap(p, #[trigger] out@[j]),
        decreases out.len() - i,
    {
        let q = out[i];
        if q.line == p.line && ((q.offset <= p.offset && (p.offset as u32) < q.offset as u32
            + q.count as u32) || (p.offset <= q.offset && (q.offset as u32) < end)) {
            assert(overlap(p, out@[i as int]));
            return ;
        }
        i += 1;
    }
    assert(!blocked(out@, p));
    let k = position(out, p);
    if k < out.len() && out[k].line == p.line && out[k].offset == p.offset {
        out[k] = p;
    } else {
        out.insert(k, p);
    }
}

/// Computes `place`.
fn position(out: &Vec<Placed>, p: Placed) -> (r: usize)
    ensures
        r == place(out@, p),
        r <= out@.len(),
{
    let mut i: usize = out.len();
    proof {
        assert(out@.take(i as int) =~= out@);
    }
    while i > 0 && !(out[i - 1].line < p.line || (out[i - 1].line == p.line && out[i - 1].offset
        < p.offset))
        invariant
            i <= out.len(),
            place(out@, p) == place(out@.take(i as int), p),
        decreases i,
    {
        proof {
            assert(out@.take(i as int).drop_last() =~= out@.take(i - 1));
        }
        i -= 1;
    }
    i
}

/// Where the packets of each line stand in an ordered list: the index of
/// the first packet of each line and the number of packets on it, in the
/// order of the lines.
pub open spec fn runs(s: Seq<Placed>) -> Seq<(usize, usize)>
    decreases s.len(),
{
    if s.len() == 0 {
        Seq::empty()
    } else {
        let before = runs(s.drop_last());
        if s.len() >= 2 && s[s.len() - 2].line == s.last().line && before.len() > 0 {
            before.update(
                before.len() - 1,
                (before.last().0, (before.last().1 + 1) as usize),
            )
        } else {
            before.push(((s.len() - 1) as usize, 1))
        }
    }
}

/// Finds the packets of each line (see `runs`).
pub fn line_runs(placed: &Vec<Placed>) -> (r: Vec<(usize, usize)>)
    ensures
        r@ == runs(placed@),
{
    let mut out: Vec<(usize, usize)> = Vec::new();
    let mut i: usize = 0;
    while i < placed.len()
        invariant
            i <= placed.len(),
            out@ == runs(placed@.take(i as int)),
            forall|k: int| 0 <= k < out@.len() ==> (#[trigger] out@[k]).1 <= i,
        decreases placed.len() - i,
    {
        proof {
            assert(placed@.take(i + 1).drop_last() =~= placed@.take(i as int));
        }
        let n = out.len();
        if i >= 1 && placed[i - 1].line == placed[i].line && n > 0 {
            let (first, count) = out[n - 1];
            out[n - 1] = (first, count + 1);
        } else {
            out.push((i, 1));
        }
        i += 1;
    }
    proof {
        assert(placed@.take(placed@.len() as int) =~= placed@);
    }
    out
}

/// The bit of the data at `index`, counted from the highest bit of the
/// first byte.
pub open spec fn bit_at(data: Seq<u8>, index: int) -> u8 {
    (data[index / 8] >> ((7 - index % 8) as u8)) & 1
}

/// The number that `len` bits of the data from the bit `start` on spell,
/// highest bit first.
pub open spec fn bits_at(data: Seq<u8>, start: int, len: nat) -> nat
    decreases len,
{
    if len == 0 {
        0
    } else {
        2 * bits_at(data, start, (len - 1) as nat) + bit_at(data, start + len - 1) as nat
    }
}

/// The header of a packet of ancillary data.
#[derive(Debug, Clone, Copy, PartialEq, Eq, Structural)]
pub struct AncHeader {
    /// Whether the packet belongs to the colour-difference channel.
    pub c_not_y_channel_flag: bool,
    pub line_number: u16,
    pub horizontal_offset: u16,
    pub did: u8,
    pub sdid: u8,
    /// Number of user data words.
    pub data_count: u8,
}

/// Whether the data starts with the header of a packet and holds all of
/// the packet: six zero bits, the fields of the header in 54 bits, ten
/// bits for each user data word, and ten bits of checksum.
pub open spec fn is_anc_packet(data: Seq<u8>) -> bool {
    &&& data.len() >= 8
    &&& bits_at(data, 0, 6) == 0
    &&& 70 + 10 * (bits_at(data, 50, 10) % 256) <= 8 * data.len()
}

/// The header that the data starts with. Identifiers and data count are
/// the low eight bits of their ten: the upper two are parity.
pub open spec fn anc_header_of(data: Seq<u8>) -> AncHeader {
    AncHeader {
        c_not_y_channel_flag: bits_at(data, 6, 1) == 1,
        line_number: bits_at(data, 7, 11) as u16,
        horizontal_offset: bits_at(data, 18, 12) as u16,
        did: (bits_at(data, 30, 10) % 256) as u8,
        sdid: (bits_at(data, 40, 10) % 256) as u8,
        data_count: (bits_at(data, 50, 10) % 256) as u8,
    }
}

/// Two to the power of `len`.
pub open spec fn two_to(len: nat) -> nat
    decreases len,
{
    if len == 0 {
        1
    } else {
        2 * two_to((len - 1) as nat)
    }
}

/// A run of bits spells a number below two to the power of its length.
pub proof fn lemma_bits_below(data: Seq<u8>, start: int, len: nat)
    ensures
        bits_at(data, start, len) < two_to(len),
    decreases len,
{
    if len > 0 {
        lemma_bits_below(data, start, (len - 1) as nat);
        let b = data[(start + len - 1) / 8];
        let sh = (7 - (start + len - 1) % 8) as u8;
        assert((b >> sh) & 1 <= 1) by (bit_vector);
    }
}

/// Runs of up to twelve bits spell numbers of up to twelve bits.
proof fn lemma_bits_bound(data: Seq<u8>, start: int, len: nat)
    requires
        len <= 12,
    ensures
        bits_at(data, start, len) < 4096,
        len <= 1 ==> bits_at(data, start, len) < 2,
        len <= 6 ==> bits_at(data, start, len) < 64,
        len <= 10 ==> bits_at(data, start, len) < 1024,
        len <= 11 ==> bits_at(data, start, len) < 2048,
{
    lemma_bits_below(data, start, len);
    assert(two_to(0) == 1 && two_to(1) == 2 && two_to(2) == 4 && two_to(3) == 8 && two_to(4) == 16
        && two_to(5) == 32 && two_to(6) == 64) by {
        reveal_with_fuel(two_to, 8);
    }
    assert(two_to(7) == 128 && two_to(8) == 256 && two_to(9) == 512 && two_to(10) == 1024
        && two_to(11) == 2048 && two_to(12) == 4096) by {
        reveal_with_fuel(two_to, 14);
    }
}

/// Reads `len` bits of the data from the bit `start` on.
fn read_bits(data: &[u8], start: usize, len: usize) -> (r: u16)
    requires
        len <= 12,
        start + len <= 8 * data@.len(),
        data@.len() <= usize::MAX / 8,
    ensures
        r == bits_at(data@, start as int, len as nat),
{
    let mut acc: u16 = 0;
    let mut k: usize = 0;
    while k < len
        invariant
            k <= len <= 12,
            start + len <= 8 * data@.len(),
            data@.len() <= usize::MAX / 8,
            acc == bits_at(data@, start as int, k as nat),
        decreases len - k,
    {
        proof {
            lemma_bits_bound(data@, start as int, k as nat);
        }
        let index = start + k;
        let byte = data[index / 8];
        let bit: u8 = (byte >> ((7 - index % 8) as u8)) & 1;
        assert(bit <= 1) by (bit_vector)
            requires
                bit == (byte >> ((7 - index % 8) as u8)) & 1,
        ;
        acc = acc * 2 + bit as u16;
        k += 1;
    }
    acc
}

/// Reads the header of a packet of ancillary data; `None` where the data
/// is no such packet.
#[verifier::rlimit(50)]
pub fn parse_header(data: &[u8]) -> (r: Option<AncHeader>)
    ensures
        r == (if is_anc_packet(data@) {
            Some(anc_header_of(data@))
        } else {
            None
        }),
{
    let n = data.len();
    if n < 8 {
        return None;
    }
    // The header lies within the first bytes, whose bits can be counted
    // whatever the length of the data.
    let limit: usize = if n > usize::MAX / 8 { usize::MAX / 8 } else { n };
    let head = slice_prefix(data, limit);
    proof {
        lemma_prefix_bits(data@, head@, 0, 6);
        lemma_prefix_bits(data@, head@, 6, 1);
        lemma_prefix_bits(data@, head@, 7, 11);
        lemma_prefix_bits(data@, head@, 18, 12);
        lemma_prefix_bits(data@, head@, 30, 10);
        lemma_prefix_bits(data@, head@, 40, 10);
        lemma_prefix_bits(data@, head@, 50, 10);
        lemma_bits_bound(data@, 6, 1);
        lemma_bits_bound(data@, 7, 11);
        lemma_bits_bound(data@, 18, 12);
        lemma_bits_bound(data@, 30, 10);
        lemma_bits_bound(data@, 40, 10);
        lemma_bits_bound(data@, 50, 10);
    }
    if read_bits(head, 0, 6) != 0 {
        return None;
    }
    let flag = read_bits(head, 6, 1);
    let line_number = read_bits(head, 7, 11);
    let horizontal_offset = read_bits(head, 18, 12);
    let did = read_bits(head, 30, 10) % 256;
    let sdid = read_bits(head, 40, 10) % 256;
    let data_count = read_bits(head, 50, 10) % 256;
    if (70 + 10 * data_count as u128) > 8 * n as u128 {
        return None;
    }
    Some(
        AncHeader {
            c_not_y_channel_flag: flag == 1,
            line_number,
            horizontal_offset,
            did: did as u8,
            sdid: sdid as u8,
            data_count: data_count as u8,
        },
    )
}

/// The first `len` bytes of the data.
fn slice_prefix(data: &[u8], len: usize) -> (r: &[u8])
    requires
        len <= data@.len(),
    ensures
        r@ == data@.take(len as int),
{
    vstd::slice::slice_subrange(data, 0, len)
}

/// The bits of the start of the data are those of a prefix that holds them.
proof fn lemma_prefix_bits(data: Seq<u8>, head: Seq<u8>, start: int, len: nat)
    requires
        0 <= start,
        start + len <= 64,
        head.len() >= 8,
        head.len() <= data.len(),
        head == data.take(head.len() as int),
    ensures
        bits_at(head, start, len) == bits_at(data, start, len),
    decreases len,
{
    if len > 0 {
        lemma_prefix_bits(data, head, start, (len - 1) as nat);
        assert(head[(start + len - 1) / 8] == data[(start + len - 1) / 8]);
    }
}

} // verus!

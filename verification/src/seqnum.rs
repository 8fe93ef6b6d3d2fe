//! Unwrapping of the 16-bit RTP sequence number and of the 32-bit RTP
//! timestamp into 64-bit counters that do not roll over.

use vstd::prelude::*;

verus! {

/// Number of distinct 16-bit sequence numbers.
pub const SEQ_MOD: u64 = 0x1_0000;

/// Number of distinct 32-bit timestamps.
pub const TS_MOD: u64 = 0x1_0000_0000;

/// The value congruent to `raw` modulo `modulus` that lies in the window
/// `(highest - modulus / 2, highest + modulus / 2]`.
pub open spec fn nearest(highest: int, raw: int, modulus: int) -> int {
    let low = highest - (modulus / 2 - 1);
    low + (raw - low) % modulus
}

/// What a counter with the given history yields for `raw`: the first value
/// starts one full cycle up so that earlier values still fit below it, later
/// ones are the nearest to the highest value so far. The result never
/// exceeds `u64::MAX`.
pub open spec fn extended(highest: Option<u64>, raw: int, modulus: int) -> int {
    match highest {
        None => modulus + raw,
        Some(h) => {
            let v = nearest(h as int, raw, modulus);
            if v > u64::MAX { u64::MAX as int } else { v }
        },
    }
}

/// The highest value after `raw` went through a counter with the given history.
pub open spec fn highest_after(highest: Option<u64>, raw: int, modulus: int) -> int {
    let v = extended(highest, raw, modulus);
    match highest {
        None => v,
        Some(h) => if v > h { v } else { h as int },
    }
}

/// The extended sequence number nearest to `highest` for the 16-bit `seq`.
pub fn nearest_seqnum(highest: u64, seq: u16) -> (r: u64)
    requires
        highest >= SEQ_MOD,
    ensures
        r == extended(Some(highest), seq as int, SEQ_MOD as int),
        r >= SEQ_MOD / 2,
{
    let s: u64 = seq as u64;
    let low: u64 = highest - 0x7fff;
    let r: u64 = low % SEQ_MOD;
    let d: u64 = if s >= r { s - r } else { s + SEQ_MOD - r };
    assert(d as int == (s as int - low as int) % (SEQ_MOD as int));
    if d > u64::MAX - low { u64::MAX } else { low + d }
}

/// The extended timestamp nearest to `highest` for the 32-bit `timestamp`.
pub fn nearest_timestamp(highest: u64, timestamp: u32) -> (r: u64)
    requires
        highest >= TS_MOD,
    ensures
        r == extended(Some(highest), timestamp as int, TS_MOD as int),
        r >= TS_MOD / 2,
{
    let s: u64 = timestamp as u64;
    let low: u64 = highest - 0x7fff_ffff;
    let r: u64 = low % TS_MOD;
    let d: u64 = if s >= r { s - r } else { s + TS_MOD - r };
    assert(d as int == (s as int - low as int) % (TS_MOD as int));
    if d > u64::MAX - low { u64::MAX } else { low + d }
}

/// Extends 16-bit sequence numbers.
#[derive(Debug, Clone, Copy)]
pub struct ExtendedSeqnum {
    highest: Option<u64>,
}

impl ExtendedSeqnum {
    /// The highest extended sequence number produced so far.
    pub closed spec fn highest(&self) -> Option<u64> {
        self.highest
    }

    /// Every value produced is at least one cycle above zero.
    pub open spec fn wf(&self) -> bool {
        match self.highest() {
            None => true,
            Some(h) => h >= SEQ_MOD,
        }
    }

    /// A counter that has seen nothing.
    pub fn new() -> (r: Self)
        ensures
            r.wf(),
            r.highest() is None,
    {
        ExtendedSeqnum { highest: None }
    }

    /// The highest extended sequence number produced so far.
    pub fn current(&self) -> (r: Option<u64>)
        ensures
            r == self.highest(),
    {
        self.highest
    }

    /// Extends `seq` and records it.
    pub fn next(&mut self, seq: u16) -> (r: u64)
        requires
            old(self).wf(),
        ensures
            final(self).wf(),
            r == extended(old(self).highest(), seq as int, SEQ_MOD as int),
            final(self).highest() == Some(
                highest_after(old(self).highest(), seq as int, SEQ_MOD as int) as u64,
            ),
            r >= SEQ_MOD / 2,
    {
        let s: u64 = seq as u64;
        match self.highest {
            None => {
                let v: u64 = SEQ_MOD + s;
                self.highest = Some(v);
                v
            },
            Some(h) => {
                let v: u64 = nearest_seqnum(h, seq);
                if v > h {
                    self.highest = Some(v);
                }
                v
            },
        }
    }
}

/// Extends 32-bit RTP timestamps.
#[derive(Debug, Clone, Copy)]
pub struct ExtendedTimestamp {
    highest: Option<u64>,
}

impl ExtendedTimestamp {
    /// The highest extended timestamp produced so far.
    pub closed spec fn highest(&self) -> Option<u64> {
        self.highest
    }

    /// Every value produced is at least one cycle above zero.
    pub open spec fn wf(&self) -> bool {
        match self.highest() {
            None => true,
            Some(h) => h >= TS_MOD,
        }
    }

    /// A counter that has seen nothing.
    pub fn new() -> (r: Self)
        ensures
            r.wf(),
            r.highest() is None,
    {
        ExtendedTimestamp { highest: None }
    }

    /// The highest extended timestamp produced so far.
    pub fn current(&self) -> (r: Option<u64>)
        ensures
            r == self.highest(),
    {
        self.highest
    }

    /// Extends `timestamp` and records it.
    pub fn next(&mut self, timestamp: u32) -> (r: u64)
        requires
            old(self).wf(),
        ensures
            final(self).wf(),
            r == extended(old(self).highest(), timestamp as int, TS_MOD as int),
            final(self).highest() == Some(
                highest_after(old(self).highest(), timestamp as int, TS_MOD as int) as u64,
            ),
            r >= TS_MOD / 2,
    {
        let s: u64 = timestamp as u64;
        match self.highest {
            None => {
                let v: u64 = TS_MOD + s;
                self.highest = Some(v);
                v
            },
            Some(h) => {
                let v: u64 = nearest_timestamp(h, timestamp);
                if v > h {
                    self.highest = Some(v);
                }
                v
            },
        }
    }
}

/// A raw value that advances by no more than half a cycle extends to a
/// counter that advances by exactly as much, across a rollover of the raw
/// value too.
pub proof fn lemma_nearest_advances(highest: int, raw: int, step: int, modulus: int)
    requires
        modulus == SEQ_MOD || modulus == TS_MOD,
        0 <= raw < modulus,
        0 <= step <= modulus / 2,
        highest % modulus == raw,
    ensures
        nearest(highest, (raw + step) % modulus, modulus) == highest + step,
{
    if modulus == SEQ_MOD {
        let next = (raw + step) % 0x1_0000;
        let low = highest - 0x7fff;
        assert(highest % 0x1_0000 == raw);
        assert((next - low) % 0x1_0000 == step + 0x7fff);
    } else {
        let next = (raw + step) % 0x1_0000_0000;
        let low = highest - 0x7fff_ffff;
        assert(highest % 0x1_0000_0000 == raw);
        assert((next - low) % 0x1_0000_0000 == step + 0x7fff_ffff);
    }
}

/// The extended value differs from the raw one by whole cycles.
pub proof fn lemma_nearest_congruent(highest: int, raw: int, modulus: int)
    requires
        modulus == SEQ_MOD || modulus == TS_MOD,
        0 <= raw < modulus,
    ensures
        nearest(highest, raw, modulus) % modulus == raw,
        highest - modulus / 2 < nearest(highest, raw, modulus) <= highest + modulus / 2,
{
    let low = highest - (modulus / 2 - 1);
    if modulus == SEQ_MOD {
        assert((low + (raw - low) % 0x1_0000) % 0x1_0000 == raw);
    } else {
        assert((low + (raw - low) % 0x1_0000_0000) % 0x1_0000_0000 == raw);
    }
}

} // verus!

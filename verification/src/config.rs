//! The settings of an engine, and the small decisions that its caller
//! takes from names and negotiated properties.

use vstd::prelude::*;
use vstd::string::StringSliceAdditionalSpecFns;
use crate::session::{KeyUnitRequestType, RtpProfile, RTCP_MIN_REPORT_INTERVAL};
use crate::sync::TimestampingMode;

verus! {

/// How long packets are held unless configured otherwise, in nanoseconds:
/// 200 ms.
pub const DEFAULT_LATENCY: u64 = 200_000_000;

/// The shortest time between RTCP reports unless configured otherwise.
pub const DEFAULT_MIN_RTCP_INTERVAL: u64 = RTCP_MIN_REPORT_INTERVAL;

/// Whether reduced-size RTCP is used unless configured otherwise.
pub const DEFAULT_REDUCED_SIZE_RTCP: bool = false;

/// Nanoseconds in a millisecond.
pub const NANOS_PER_MILLI: u64 = 1_000_000;

/// What an engine is configured with.
#[derive(Debug, Clone, Copy, PartialEq, Eq, Structural)]
pub struct Settings {
    /// How long received packets are held, in nanoseconds.
    pub latency: u64,
    /// The shortest time between regular RTCP reports, in nanoseconds.
    pub min_rtcp_interval: u64,
    pub profile: RtpProfile,
    pub reduced_size_rtcp: bool,
    pub timestamping_mode: TimestampingMode,
}

/// The settings of an engine that was not configured.
pub open spec fn default_settings() -> Settings {
    Settings {
        latency: DEFAULT_LATENCY,
        min_rtcp_interval: DEFAULT_MIN_RTCP_INTERVAL,
        profile: RtpProfile::Avp,
        reduced_size_rtcp: DEFAULT_REDUCED_SIZE_RTCP,
        timestamping_mode: TimestampingMode::NtpAligned,
    }
}

impl Default for Settings {
    fn default() -> (r: Self)
        ensures
            r == default_settings(),
    {
        Settings {
            latency: DEFAULT_LATENCY,
            min_rtcp_interval: DEFAULT_MIN_RTCP_INTERVAL,
            profile: RtpProfile::default(),
            reduced_size_rtcp: DEFAULT_REDUCED_SIZE_RTCP,
            timestamping_mode: TimestampingMode::default(),
        }
    }
}

/// A time in milliseconds as nanoseconds.
pub fn millis_to_nanos(millis: u32) -> (r: u64)
    ensures
        r == millis * NANOS_PER_MILLI,
{
    millis as u64 * NANOS_PER_MILLI
}

/// A time in nanoseconds as whole milliseconds, no more than 32 bits.
pub fn nanos_to_millis(nanos: u64) -> (r: u32)
    ensures
        r == (if nanos / NANOS_PER_MILLI > u32::MAX {
            u32::MAX as int
        } else {
            (nanos / NANOS_PER_MILLI) as int
        }),
{
    let m = nanos / NANOS_PER_MILLI;
    if m > u32::MAX as u64 {
        u32::MAX
    } else {
        m as u32
    }
}

/// The clock rate that negotiated properties give: the value of their
/// clock rate where it is there and positive.
pub fn clock_rate_from_caps(clock_rate: Option<i32>) -> (r: Option<u32>)
    ensures
        r == (match clock_rate {
            Some(c) if c > 0 => Some(c as u32),
            _ => None,
        }),
{
    match clock_rate {
        Some(c) if c > 0 => Some(c as u32),
        _ => None,
    }
}

/// The payload type and clock rate that negotiated properties give: both
/// must be there, the payload type between 0 and 127 and the clock rate
/// positive.
pub fn pt_clock_rate_from_caps(clock_rate: Option<i32>, payload: Option<i32>) -> (r: Option<
    (u8, u32),
>)
    ensures
        r == (match (clock_rate, payload) {
            (Some(c), Some(p)) if 0 <= p <= 127 && c > 0 => Some((p as u8, c as u32)),
            _ => None,
        }),
{
    match (clock_rate, payload) {
        (Some(c), Some(p)) if 0 <= p && p <= 127 && c > 0 => Some((p as u8, c as u32)),
        _ => None,
    }
}

/// The latency that the engine answers a latency query with: its own, on
/// top of the smallest latency of what lies before it where that is known.
/// The sum stops at the largest value.
pub fn total_latency(ours: u64, upstream_min: Option<u64>) -> (r: u64)
    ensures
        r == (match upstream_min {
            Some(m) => if ours + m > u64::MAX {
                u64::MAX as int
            } else {
                ours + m
            },
            None => ours as int,
        }),
{
    match upstream_min {
        Some(m) => if m > u64::MAX - ours {
            u64::MAX
        } else {
            ours + m
        },
        None => ours,
    }
}

/// How a key frame is asked of a remote sender, given what feedback was
/// negotiated for its stream: a full intra request where that was
/// negotiated and the caller wants all headers, else a picture loss
/// indication where that was negotiated, else not at all.
pub fn key_unit_request_kind(pli: bool, fir: bool, all_headers: bool, count: u32) -> (r: Option<
    KeyUnitRequestType,
>)
    ensures
        r == (if fir && all_headers {
            Some(KeyUnitRequestType::Fir(count))
        } else if pli {
            Some(KeyUnitRequestType::Pli)
        } else {
            None
        }),
{
    if fir && all_headers {
        Some(KeyUnitRequestType::Fir(count))
    } else if pli {
        Some(KeyUnitRequestType::Pli)
    } else {
        None
    }
}

/// The next step of a query that passes through the streams of a session
/// one after the other.
#[derive(Debug, Clone, Copy, PartialEq, Eq, Structural)]
pub enum QueryStep {
    /// Hand the query to the stream at this place and wait for its answer.
    Ask(usize),
    /// The query is answered.
    Done(bool),
}

/// Decides how a query that waits behind the packets of each stream goes
/// on: `asked` streams of `streams` have had it, and `last` is what the
/// stream asked last answered. The first stream that succeeds answers the
/// query. Where none does, the query fails; where there is no stream to
/// ask, it succeeds.
pub fn query_step(streams: usize, asked: usize, last: Option<bool>) -> (r: QueryStep)
    ensures
        r == (match last {
            Some(true) => QueryStep::Done(true),
            _ => if asked < streams {
                QueryStep::Ask(asked)
            } else {
                QueryStep::Done(asked == 0)
            },
        }),
{
    match last {
        Some(true) => QueryStep::Done(true),
        _ => if asked < streams {
            QueryStep::Ask(asked)
        } else {
            QueryStep::Done(asked == 0)
        },
    }
}

/// What activating or deactivating an output of a received stream asks for.
#[derive(Debug, Clone, Copy, PartialEq, Eq, Structural)]
pub enum Activation {
    /// Start handing packets to the output.
    Start,
    /// Stop handing packets to the output.
    Stop,
    /// Nothing to do.
    Nothing,
    /// Refused: the mode is not supported, or the session is not known.
    Refused,
}

/// Decides what a change of activation asks for. Only the push mode is
/// supported; an output of a session that is gone can be deactivated but
/// not activated.
pub fn activation(push_mode: bool, session_known: bool, active: bool) -> (r: Activation)
    ensures
        r == (if !push_mode {
            Activation::Refused
        } else if !session_known {
            if active {
                Activation::Refused
            } else {
                Activation::Nothing
            }
        } else if active {
            Activation::Start
        } else {
            Activation::Stop
        }),
{
    if !push_mode {
        Activation::Refused
    } else if !session_known {
        if active {
            Activation::Refused
        } else {
            Activation::Nothing
        }
    } else if active {
        Activation::Start
    } else {
        Activation::Stop
    }
}

/// The value of a sequence of decimal digits; `None` where a byte is no
/// digit or the value does not fit the machine's word.
pub open spec fn decimal(digits: Seq<u8>) -> Option<int>
    decreases digits.len(),
{
    if digits.len() == 0 {
        Some(0)
    } else {
        let d = digits.last();
        match decimal(digits.drop_last()) {
            Some(v) if 0x30 <= d <= 0x39 && v * 10 + (d - 0x30) <= usize::MAX => Some(
                v * 10 + (d - 0x30),
            ),
            _ => None,
        }
    }
}

/// The number that a text stands for: decimal digits, at least one, with
/// a plus sign in front of them or not.
pub open spec fn number(text: Seq<u8>) -> Option<int> {
    let digits = if text.len() > 0 && text[0] == 0x2b { text.skip(1) } else { text };
    if digits.len() == 0 {
        None
    } else {
        decimal(digits)
    }
}

/// Whether `text` begins with `prefix`.
pub open spec fn begins_with(text: Seq<u8>, prefix: Seq<u8>) -> bool {
    prefix.len() <= text.len() && text.take(prefix.len() as int) == prefix
}

/// The session that the name of a requested pad asks for: the default one
/// without a name or where `%u` follows the prefix, else the number that
/// follows the prefix; `None` where the name does not begin with the
/// prefix or no number follows.
pub open spec fn session_id_of(name: Option<Seq<u8>>, prefix: Seq<u8>, default_id: usize) -> Option<
    usize,
> {
    match name {
        None => Some(default_id),
        Some(n) => if !begins_with(n, prefix) {
            None
        } else {
            let suffix = n.skip(prefix.len() as int);
            if begins_with(suffix, seq![0x25u8, 0x75u8]) {
                Some(default_id)
            } else {
                match number(suffix) {
                    Some(v) => Some(v as usize),
                    None => None,
                }
            }
        },
    }
}

/// Computes `begins_with` for the part of `text` from `from` on.
fn begins_at(text: &[u8], from: usize, prefix: &[u8]) -> (r: bool)
    requires
        from <= text@.len(),
    ensures
        r == begins_with(text@.skip(from as int), prefix@),
{
    let n = text.len();
    if prefix.len() > n - from {
        return false;
    }
    let mut i: usize = 0;
    while i < prefix.len()
        invariant
            i <= prefix.len(),
            n == text@.len(),
            from <= n,
            prefix@.len() <= n - from,
            forall|j: int| 0 <= j < i ==> text@[from + j] == prefix@[j],
        decreases prefix.len() - i,
    {
        if text[from + i] != prefix[i] {
            proof {
                assert(text@.skip(from as int).take(prefix@.len() as int)[i as int] != prefix@[i as int]);
            }
            return false;
        }
        i += 1;
    }
    proof {
        assert(text@.skip(from as int).take(prefix@.len() as int) =~= prefix@);
    }
    true
}

/// Computes `number` for the part of `text` from `from` on.
#[verifier::rlimit(50)]
fn number_at(text: &[u8], from: usize) -> (r: Option<usize>)
    requires
        from <= text@.len(),
    ensures
        match r {
            Some(v) => number(text@.skip(from as int)) == Some(v as int),
            None => number(text@.skip(from as int)) is None,
        },
{
    let ghost whole = text@.skip(from as int);
    let start: usize = if from < text.len() && text[from] == 0x2b { from + 1 } else { from };
    let ghost digits = text@.skip(start as int);
    proof {
        if start > from {
            assert(whole.skip(1) =~= digits);
        }
    }
    if start >= text.len() {
        return None;
    }
    let mut value: usize = 0;
    let mut i: usize = start;
    proof {
        assert(digits.take(0) =~= Seq::<u8>::empty());
        assert(whole[0] == text@[from as int]);
        assert(number(whole) == decimal(digits));
    }
    while i < text.len()
        invariant
            start <= i <= text.len(),
            digits == text@.skip(start as int),
            number(text@.skip(from as int)) == decimal(digits),
            decimal(digits.take(i - start)) == Some(value as int),
        decreases text.len() - i,
    {
        let d = text[i];
        proof {
            assert(digits.take(i + 1 - start).drop_last() =~= digits.take(i - start));
            assert(digits.take(i + 1 - start).last() == d);
        }
        if d < 0x30 || d > 0x39 || value > (usize::MAX - (d - 0x30) as usize) / 10 {
            proof {
                assert(decimal(digits.take(i + 1 - start)) is None);
                lemma_decimal_prefix(digits, i + 1 - start);
            }
            return None;
        }
        value = value * 10 + (d - 0x30) as usize;
        i += 1;
    }
    proof {
        assert(digits.take(digits.len() as int) =~= digits);
    }
    Some(value)
}

/// Digits that do not stand for a number do not do so with more digits
/// behind them either.
proof fn lemma_decimal_prefix(digits: Seq<u8>, n: int)
    requires
        0 <= n <= digits.len(),
        decimal(digits.take(n)) is None,
    ensures
        decimal(digits) is None,
    decreases digits.len() - n,
{
    if n < digits.len() {
        assert(digits.take(n + 1).drop_last() =~= digits.take(n));
        lemma_decimal_prefix(digits, n + 1);
    } else {
        assert(digits.take(n) =~= digits);
    }
}

/// The session that the name of a requested pad asks for (see
/// `session_id_of`).
pub fn parse_session_id(name: Option<&str>, prefix: &str, default_id: usize) -> (r: Option<usize>)
    ensures
        r == session_id_of(
            match name {
                Some(n) => Some(n.spec_bytes()),
                None => None,
            },
            prefix.spec_bytes(),
            default_id,
        ),
{
    let name = match name {
        Some(n) => n,
        None => { return Some(default_id); },
    };
    let text = name.as_bytes();
    let lead = prefix.as_bytes();
    proof {
        assert(text@.skip(0) =~= text@);
    }
    if !begins_at(text, 0, lead) {
        return None;
    }
    let from = lead.len();
    let marker: [u8; 2] = [0x25, 0x75];
    proof {
        assert(marker@ =~= seq![0x25u8, 0x75u8]);
    }
    if begins_at(text, from, marker.as_slice()) {
        return Some(default_id);
    }
    number_at(text, from)
}

} // verus!

//! The timeline mixer: lays decoded tracks onto an additive,
//! interleaved-stereo sample buffer at given offsets, volumes and
//! playback rates.
//!
//! All quantities are fixed-point integers, so every arithmetic step is
//! exact and the mixed buffer is pinned down sample by sample:
//! - a track sample is an `i16`, full scale at [`SAMPLE_ONE`];
//! - seconds are `u64` multiples of `1/TIME_ONE`;
//! - volume and playback rate are `u32` multiples of `1/VOLUME_ONE` and
//!   `1/RATE_ONE`;
//! - a buffer cell is an `i128` holding the sum of
//!   `interpolated-sample-times-RATE_ONE times volume` contributions, so
//!   full scale (one track at volume `VOLUME_ONE`) is [`MIX_ONE`]. The
//!   caller rescales cells to its output sample format by dividing by
//!   `MIX_ONE`.
//!
//! Mixing is pure addition: no normalization and no clamping, so
//! overlapping loud events may exceed full scale; bounding that is the
//! caller's business.

use vstd::prelude::*;
use vstd::arithmetic::div_mod::{lemma_fundamental_div_mod, lemma_div_is_ordered};
use vstd::arithmetic::mul::{lemma_mul_inequality, lemma_mul_is_commutative};
use vstd::math::abs;

use crate::store::{TrackStore, assoc_lookup};

verus! {

/// One second, in the fixed-point time unit of [`Timestamp::time`].
pub const TIME_ONE: u64 = 65536;

/// Playback rate 1.0, in the fixed-point unit of [`Timestamp::rate`].
pub const RATE_ONE: u32 = 65536;

/// Volume 1.0, in the fixed-point unit of [`Timestamp::volume`].
pub const VOLUME_ONE: u32 = 65536;

/// A track sample at full scale (the largest positive `i16`), matching
/// a decoder that normalizes 16-bit integer samples by their maximum.
pub const SAMPLE_ONE: i32 = 32767;

/// A mixed buffer cell at full scale: one full-scale sample placed at
/// volume 1.0 and any rate.
pub const MIX_ONE: i128 = 32767 * 65536 * 65536;

/// One placement of a sound on the timeline: play the track stored
/// under `sound`, starting `time / TIME_ONE` seconds in, scaled by
/// `volume / VOLUME_ONE`, resampled by `rate / RATE_ONE`.
#[derive(Debug, Clone)]
pub struct Timestamp {
    pub sound: String,
    pub time: u64,
    pub volume: u32,
    pub rate: u32,
}

/// Why a mix was aborted. No partial buffer is ever produced.
#[derive(Debug)]
pub enum MixError {
    /// A placement referenced a key absent from the store; carries that
    /// key. The whole mix is abandoned.
    UnknownSound(String),
}

/// First cell of the interleaved buffer written by an event placed at
/// `time`: the offset in seconds, rounded to the nearest whole sample,
/// times two channels.
pub open spec fn position_of(time: nat, sample_rate: nat) -> nat {
    ((time * sample_rate + (TIME_ONE as nat) / 2) / (TIME_ONE as nat)) * 2
}

/// Length of the mix buffer for a timeline of `duration / TIME_ONE`
/// seconds: seconds times rate, rounded up, times two channels.
pub open spec fn buffer_len(duration: nat, sample_rate: nat) -> nat {
    ((((duration * sample_rate + (TIME_ONE as nat) - 1) as int) / (TIME_ONE as int)) * 2) as nat
}

/// The least source index at or after the fractional cursor
/// `cursor / RATE_ONE`.
pub open spec fn ceil_index(cursor: nat) -> nat {
    if cursor % (RATE_ONE as nat) == 0 {
        cursor / (RATE_ONE as nat)
    } else {
        cursor / (RATE_ONE as nat) + 1
    }
}

/// The track linearly interpolated at the fractional source position
/// `cursor / RATE_ONE`, scaled up by `RATE_ONE` so the value stays an
/// exact integer. On a whole index this is the sample itself times
/// `RATE_ONE`.
pub open spec fn interp_at(track: Seq<i16>, cursor: nat) -> int
    recommends
        ceil_index(cursor) < track.len(),
{
    let fl = cursor / (RATE_ONE as nat);
    let fr = cursor % (RATE_ONE as nat);
    if fr == 0 {
        track[fl as int] * (RATE_ONE as int)
    } else {
        track[fl as int] * ((RATE_ONE as nat) - fr) + track[fl as int + 1] * fr
    }
}

/// How many output cells an event draws from a track of length
/// `track_len` at the given rate before the source is exhausted: the
/// number of cursor positions `i * rate` whose ceiling index stays
/// inside the track.
pub open spec fn step_count(track_len: nat, rate: nat) -> nat
    recommends
        rate >= 1,
{
    if track_len == 0 {
        0
    } else {
        ((((track_len - 1) * (RATE_ONE as int)) / (rate as int)) + 1) as nat
    }
}

/// What the first `steps` output steps of event `e`, playing `track`,
/// add to buffer cell `j`. Each step `i` writes one cell at
/// `position + i`; a step stops contributing once the source is
/// exhausted.
pub open spec fn partial_contrib_at(
    track: Seq<i16>,
    e: Timestamp,
    sample_rate: nat,
    steps: nat,
    j: int,
) -> int {
    let pos = position_of(e.time as nat, sample_rate) as int;
    let i = j - pos;
    if 0 <= i && i < steps && i < step_count(track.len(), e.rate as nat) {
        interp_at(track, (i * e.rate) as nat) * e.volume
    } else {
        0
    }
}

/// What event `e`, playing `track`, adds to buffer cell `j` in all.
pub open spec fn contrib_at(track: Seq<i16>, e: Timestamp, sample_rate: nat, j: int) -> int {
    let pos = position_of(e.time as nat, sample_rate) as int;
    let i = j - pos;
    if 0 <= i && i < step_count(track.len(), e.rate as nat) {
        interp_at(track, (i * e.rate) as nat) * e.volume
    } else {
        0
    }
}

/// What event `e` adds to buffer cell `j`, resolving its track in the
/// store; an unresolved key contributes nothing (the mixer refuses such
/// an event set up front).
pub open spec fn contrib_of(
    store: Seq<(Seq<char>, Seq<i16>)>,
    e: Timestamp,
    sample_rate: nat,
    j: int,
) -> int {
    match assoc_lookup(store, e.sound@) {
        Some(track) => contrib_at(track, e, sample_rate, j),
        None => 0,
    }
}

/// The mixed value of buffer cell `j`: the sum of every event's
/// contribution there. Mixing is this sum and nothing else.
pub open spec fn mix_at(
    store: Seq<(Seq<char>, Seq<i16>)>,
    events: Seq<Timestamp>,
    sample_rate: nat,
    j: int,
) -> int
    decreases events.len(),
{
    if events.len() == 0 {
        0
    } else {
        mix_at(store, events.drop_last(), sample_rate, j) + contrib_of(
            store,
            events.last(),
            sample_rate,
            j,
        )
    }
}

/// Every event's sound key resolves in the store.
pub open spec fn all_resolved(store: Seq<(Seq<char>, Seq<i16>)>, events: Seq<Timestamp>) -> bool {
    forall|k: int|
        0 <= k < events.len() ==> assoc_lookup(store, (#[trigger] events[k]).sound@) is Some
}

/// The index of the first event whose key does not resolve (meaningful
/// only when one exists).
pub open spec fn first_unresolved(
    store: Seq<(Seq<char>, Seq<i16>)>,
    events: Seq<Timestamp>,
) -> int
    decreases events.len(),
{
    if events.len() == 0 {
        0
    } else if assoc_lookup(store, events[0].sound@) is None {
        0
    } else {
        1 + first_unresolved(store, events.drop_first())
    }
}

/// The largest magnitude any single event can add to one cell: a
/// full-magnitude interpolated sample times the largest volume.
pub open spec fn contrib_bound() -> int {
    (0x8000_0000 as int) * (0xffff_ffff as int)
}

/// For nonnegative `a`, `b` and positive `d`: `a` is at most the
/// quotient of `b` by `d` exactly when `a * d` is at most `b`.
proof fn lemma_div_le_iff(a: int, b: int, d: int)
    requires
        d >= 1,
        a >= 0,
        b >= 0,
    ensures
        (a <= b / d) <==> (a * d <= b),
{
    if a <= b / d {
        lemma_mul_inequality(a, b / d, d);
        lemma_fundamental_div_mod(b, d);
        assert((b / d) * d <= b) by {
            assert(b % d >= 0) by {
                vstd::arithmetic::div_mod::lemma_mod_division_less_than_divisor(b, d);
            }
            assert(b == d * (b / d) + b % d);
            lemma_mul_is_commutative(b / d, d);
        }
    }
    if a * d <= b {
        lemma_div_is_ordered(a * d, b, d);
        assert((a * d) / d == a) by {
            lemma_mul_is_commutative(a, d);
            vstd::arithmetic::div_mod::lemma_div_multiples_vanish(a, d);
        }
    }
}

/// The ceiling index of a nonnegative cursor stays below `bound`
/// exactly when the cursor does not pass the last whole position,
/// `(bound - 1) * RATE_ONE`.
proof fn lemma_ceil_lt_iff(c: nat, bound: nat)
    requires
        bound >= 1,
    ensures
        (ceil_index(c) < bound) <==> (c <= (bound - 1) * (RATE_ONE as int)),
{
    let r = RATE_ONE as int;
    let fl = (c as int) / r;
    let fr = (c as int) % r;
    lemma_fundamental_div_mod(c as int, r);
    vstd::arithmetic::div_mod::lemma_mod_division_less_than_divisor(c as int, r);
    vstd::arithmetic::div_mod::lemma_div_pos_is_pos(c as int, r);
    if fr == 0 {
        // c == fl * r exactly
        assert(c == r * fl);
        if fl <= bound - 1 {
            lemma_mul_inequality(fl, bound - 1, r);
            lemma_mul_is_commutative(fl, r);
            lemma_mul_is_commutative(bound - 1, r);
        }
        if c <= (bound - 1) * r {
            lemma_div_is_ordered(c as int, (bound - 1) * r, r);
            assert(((bound - 1) * r) / r == bound - 1) by {
                lemma_mul_is_commutative(bound - 1, r);
                vstd::arithmetic::div_mod::lemma_div_multiples_vanish(bound - 1, r);
            }
        }
    } else {
        // ceil_index(c) == fl + 1
        if fl + 1 <= bound - 1 {
            // c == r * fl + fr < r * (fl + 1) <= r * (bound - 1)
            lemma_mul_inequality(fl + 1, bound - 1, r);
            lemma_mul_is_commutative(fl + 1, r);
            lemma_mul_is_commutative(bound - 1, r);
            assert(r * fl + fr < (fl + 1) * r) by {
                lemma_mul_is_commutative(fl + 1, r);
                assert(r * (fl + 1) == r * fl + r) by {
                    vstd::arithmetic::mul::lemma_mul_is_distributive_add(r, fl, 1);
                }
            }
        }
        if c <= (bound - 1) * r {
            // fl cannot reach bound - 1: that would force c == (bound-1)*r,
            // whose remainder is zero.
            if fl >= bound - 1 {
                assert(c >= r * fl);
                assert(r * fl >= r * (bound - 1)) by {
                    lemma_mul_inequality(bound - 1, fl, r);
                    lemma_mul_is_commutative(bound - 1, r);
                    lemma_mul_is_commutative(fl, r);
                }
                lemma_mul_is_commutative(bound - 1, r);
                assert(c == (bound - 1) * r);
                assert((c as int) % r == 0) by {
                    vstd::arithmetic::div_mod::lemma_mod_multiples_basic(bound - 1, r);
                }
                assert(false);
            }
        }
    }
}

/// Step `i` of an event at this rate lies below the step count exactly
/// when its source cursor still has a sample (or pair of samples) to
/// read: the two sides of the executable loop's stopping test agree.
pub proof fn lemma_step_count_iff(track_len: nat, rate: nat, i: nat)
    requires
        rate >= 1,
    ensures
        (i < step_count(track_len, rate)) <==> (track_len > 0 && ceil_index(i * rate) < track_len),
{
    if track_len == 0 {
        assert(step_count(track_len, rate) == 0);
    } else {
        let r = RATE_ONE as int;
        let dd = (track_len - 1) * r;
        assert(dd >= 0) by {
            vstd::arithmetic::mul::lemma_mul_nonnegative(track_len - 1, r);
        }
        lemma_div_le_iff(i as int, dd, rate as int);
        lemma_ceil_lt_iff((i * rate) as nat, track_len);
        assert((i < step_count(track_len, rate)) <==> (i <= dd / (rate as int)));
    }
}

/// A track interpolated anywhere within bounds stays within one
/// full-magnitude sample, scaled by `RATE_ONE`.
pub proof fn lemma_interp_bound(track: Seq<i16>, cursor: nat)
    requires
        ceil_index(cursor) < track.len(),
    ensures
        abs(interp_at(track, cursor)) <= 0x8000_0000,
{
    let r = RATE_ONE as int;
    let fl = (cursor as int) / r;
    let fr = (cursor as int) % r;
    vstd::arithmetic::div_mod::lemma_mod_division_less_than_divisor(cursor as int, r);
    vstd::arithmetic::div_mod::lemma_div_pos_is_pos(cursor as int, r);
    if fr == 0 {
        let a = track[fl] as int;
        assert(abs(a * r) <= 0x8000_0000) by (nonlinear_arith)
            requires
                -32768 <= a <= 32767,
                r == 65536;
    } else {
        let a = track[fl] as int;
        let b = track[fl + 1] as int;
        assert(abs(a * (r - fr) + b * fr) <= 0x8000_0000) by (nonlinear_arith)
            requires
                -32768 <= a <= 32767,
                -32768 <= b <= 32767,
                0 <= fr <= r,
                r == 65536;
    }
}

/// No single event moves a cell by more than [`contrib_bound`].
pub proof fn lemma_contrib_bound(track: Seq<i16>, e: Timestamp, sample_rate: nat, j: int)
    requires
        e.rate >= 1,
    ensures
        abs(contrib_at(track, e, sample_rate, j)) <= contrib_bound(),
{
    let pos = position_of(e.time as nat, sample_rate) as int;
    let i = j - pos;
    if 0 <= i && i < step_count(track.len(), e.rate as nat) {
        let cursor = (i * e.rate) as nat;
        lemma_step_count_iff(track.len(), e.rate as nat, i as nat);
        lemma_interp_bound(track, cursor);
        let v = interp_at(track, cursor);
        assert(abs(v * e.volume) <= contrib_bound()) by (nonlinear_arith)
            requires
                abs(v) <= 0x8000_0000,
                0 <= e.volume <= 0xffff_ffff,
                contrib_bound() == (0x8000_0000 as int) * (0xffff_ffff as int);
    }
}

/// The running sum over any event prefix stays within the per-event
/// bound times the number of events.
pub proof fn lemma_mix_bound(
    store: Seq<(Seq<char>, Seq<i16>)>,
    events: Seq<Timestamp>,
    sample_rate: nat,
    j: int,
)
    requires
        forall|k: int| 0 <= k < events.len() ==> (#[trigger] events[k]).rate >= 1,
    ensures
        abs(mix_at(store, events, sample_rate, j)) <= events.len() * contrib_bound(),
    decreases events.len(),
{
    if events.len() == 0 {
    } else {
        lemma_mix_bound(store, events.drop_last(), sample_rate, j);
        match assoc_lookup(store, events.last().sound@) {
            Some(track) => {
                lemma_contrib_bound(track, events.last(), sample_rate, j);
            },
            None => {},
        }
        assert(events.len() * contrib_bound() == (events.len() - 1) * contrib_bound()
            + contrib_bound()) by (nonlinear_arith);
    }
}

/// Extending a processed prefix by one event adds exactly that event's
/// contribution to every cell.
pub proof fn lemma_mix_at_take_step(
    store: Seq<(Seq<char>, Seq<i16>)>,
    events: Seq<Timestamp>,
    sample_rate: nat,
    k: int,
    j: int,
)
    requires
        0 <= k < events.len(),
    ensures
        mix_at(store, events.take(k + 1), sample_rate, j) == mix_at(
            store,
            events.take(k),
            sample_rate,
            j,
        ) + contrib_of(store, events[k], sample_rate, j),
{
    assert(events.take(k + 1).drop_last() =~= events.take(k));
    assert(events.take(k + 1).last() == events[k]);
}

/// Once the loop has either exhausted the source or reached the end of
/// the buffer, the partial contribution at every cell below `len` is
/// the whole contribution.
proof fn lemma_partial_complete(
    track: Seq<i16>,
    e: Timestamp,
    sample_rate: nat,
    steps: nat,
    len: int,
    j: int,
)
    requires
        steps >= step_count(track.len(), e.rate as nat) || position_of(e.time as nat, sample_rate)
            + steps >= len,
        0 <= j < len,
    ensures
        partial_contrib_at(track, e, sample_rate, steps, j) == contrib_at(track, e, sample_rate, j),
{
}

/// If every event before `k` resolves and event `k` does not, then `k`
/// is the first unresolved index.
proof fn lemma_first_unresolved_at(
    store: Seq<(Seq<char>, Seq<i16>)>,
    events: Seq<Timestamp>,
    k: int,
)
    requires
        0 <= k < events.len(),
        forall|m: int| 0 <= m < k ==> assoc_lookup(store, (#[trigger] events[m]).sound@) is Some,
        assoc_lookup(store, events[k].sound@) is None,
    ensures
        first_unresolved(store, events) == k,
    decreases k,
{
    if k == 0 {
    } else {
        let rest = events.drop_first();
        assert(forall|m: int|
            0 <= m < k - 1 ==> assoc_lookup(store, (#[trigger] rest[m]).sound@) is Some);
        assert(rest[k - 1] == events[k]);
        lemma_first_unresolved_at(store, rest, k - 1);
    }
}

/// The first cell an event placed at `time` writes, as the executable
/// mixer computes it. Wide integers keep the arithmetic exact for every
/// input.
fn event_position(time: u64, sample_rate: u32) -> (p: u128)
    ensures
        p == position_of(time as nat, sample_rate as nat),
{
    proof {
        assert((time as int) * (sample_rate as int) <= (0xffff_ffff_ffff_ffff as int) * (
        0xffff_ffff as int)) by (nonlinear_arith)
            requires
                0 <= time as int <= 0xffff_ffff_ffff_ffff as int,
                0 <= sample_rate as int <= 0xffff_ffff as int;
    }
    let prod: u128 = (time as u128) * (sample_rate as u128);
    ((prod + 32768) / 65536) * 2
}

/// Adds event `e`, playing `track`, onto the buffer: every cell gains
/// exactly the event's contribution there. Cells beyond the buffer end
/// are silently dropped; an event placed past the end adds nothing.
fn place_event(buf: &mut Vec<i128>, track: &Vec<i16>, e: &Timestamp, sample_rate: u32)
    requires
        e.rate >= 1,
        forall|j: int|
            0 <= j < old(buf)@.len() ==> abs(#[trigger] old(buf)@[j] as int) <= (0xffff_ffff_ffff_ffff
                as int) * contrib_bound(),
    ensures
        final(buf)@.len() == old(buf)@.len(),
        forall|j: int|
            0 <= j < old(buf)@.len() ==> #[trigger] final(buf)@[j] == old(buf)@[j] + contrib_at(
                track@,
                *e,
                sample_rate as nat,
                j,
            ),
{
    let ghost orig = buf@;
    let ghost sr = sample_rate as nat;
    let len = buf.len();
    let pos_wide = event_position(e.time, sample_rate);
    if pos_wide >= len as u128 {
        // The whole event starts at or past the end of the timeline:
        // pure truncation, nothing is written.
        proof {
            assert forall|j: int| 0 <= j < len implies contrib_at(track@, *e, sr, j) == 0 by {
                assert(j - position_of(e.time as nat, sr) < 0);
            }
        }
        return ;
    }
    let pos = pos_wide as usize;
    let ghost sc = step_count(track@.len(), e.rate as nat);
    let room = len - pos;
    let volume: i128 = e.volume as i128;
    if e.rate == RATE_ONE {
        // Normal playback rate: the direct-copy path, sample by sample.
        // By `lemma_rate_one_is_direct` it lands bit for bit on the same
        // contract as the interpolating path below.
        let mut i: usize = 0;
        while i < room
            invariant
                orig == old(buf)@,
                buf@.len() == len,
                orig.len() == len,
                pos + room == len,
                pos == position_of(e.time as nat, sr),
                sr == sample_rate as nat,
                sc == step_count(track@.len(), e.rate as nat),
                e.rate == RATE_ONE,
                volume == e.volume as i128,
                i <= room,
                forall|j: int|
                    0 <= j < len ==> abs(#[trigger] orig[j] as int) <= (0xffff_ffff_ffff_ffff
                        as int) * contrib_bound(),
                forall|j: int|
                    0 <= j < len ==> #[trigger] buf@[j] == orig[j] + partial_contrib_at(
                        track@,
                        *e,
                        sr,
                        i as nat,
                        j,
                    ),
            decreases room - i,
        {
            if i >= track.len() {
                // Source exhausted.
                proof {
                    lemma_double_rate_halves(track@.len());
                    assert forall|j: int| 0 <= j < len implies partial_contrib_at(
                        track@,
                        *e,
                        sr,
                        i as nat,
                        j,
                    ) == contrib_at(track@, *e, sr, j) by {
                        lemma_partial_complete(track@, *e, sr, i as nat, len as int, j);
                    }
                }
                return ;
            }
            let s1: i64 = track[i] as i64;
            let interp: i64 = s1 * 65536;
            proof {
                lemma_rate_one_is_direct(track@, i as nat);
                assert(interp == interp_at(track@, (i * e.rate) as nat));
                lemma_step_count_iff(track@.len(), e.rate as nat, i as nat);
                lemma_interp_bound(track@, (i * e.rate) as nat);
                assert(abs((interp as int) * (e.volume as int)) <= contrib_bound()) by (
                nonlinear_arith)
                    requires
                        abs(interp as int) <= 0x8000_0000,
                        0 <= e.volume as int <= 0xffff_ffff,
                        contrib_bound() == (0x8000_0000 as int) * (0xffff_ffff as int);
            }
            let cell: i128 = (interp as i128) * volume;
            proof {
                assert(partial_contrib_at(track@, *e, sr, i as nat, pos + i) == 0);
                assert(abs(buf@[pos + i] as int) <= (0xffff_ffff_ffff_ffff as int)
                    * contrib_bound());
            }
            let idx = pos + i;
            let prev = buf[idx];
            buf[idx] = prev + cell;
            proof {
                assert forall|j: int| 0 <= j < len implies buf@[j] == orig[j]
                    + partial_contrib_at(track@, *e, sr, (i + 1) as nat, j) by {
                    if j == idx {
                        assert(partial_contrib_at(track@, *e, sr, (i + 1) as nat, j) == interp_at(
                            track@,
                            (i * e.rate) as nat,
                        ) * e.volume);
                    } else {
                        assert(partial_contrib_at(track@, *e, sr, (i + 1) as nat, j)
                            == partial_contrib_at(track@, *e, sr, i as nat, j));
                    }
                }
            }
            i = i + 1;
        }
        proof {
            assert forall|j: int| 0 <= j < len implies partial_contrib_at(
                track@,
                *e,
                sr,
                i as nat,
                j,
            ) == contrib_at(track@, *e, sr, j) by {
                lemma_partial_complete(track@, *e, sr, i as nat, len as int, j);
            }
        }
        return ;
    }
    // Adjusted playback rate: resample on the fly by exact fixed-point
    // linear interpolation.
    let mut i: usize = 0;
    let mut cursor: u128 = 0;
    while i < room
        invariant
            orig == old(buf)@,
            buf@.len() == len,
            orig.len() == len,
            pos + room == len,
            pos == position_of(e.time as nat, sr),
            sr == sample_rate as nat,
            sc == step_count(track@.len(), e.rate as nat),
            e.rate >= 1,
            volume == e.volume as i128,
            i <= room,
            cursor == i * e.rate,
            forall|j: int|
                0 <= j < len ==> abs(#[trigger] orig[j] as int) <= (0xffff_ffff_ffff_ffff as int)
                    * contrib_bound(),
            forall|j: int|
                0 <= j < len ==> #[trigger] buf@[j] == orig[j] + partial_contrib_at(
                    track@,
                    *e,
                    sr,
                    i as nat,
                    j,
                ),
        decreases room - i,
    {
        let fl_wide = cursor / 65536;
        let fr: u32 = (cursor % 65536) as u32;
        let track_len = track.len();
        let within = if fr == 0 {
            fl_wide < track_len as u128
        } else {
            fl_wide + 1 < track_len as u128
        };
        proof {
            assert(within == (track@.len() > 0 && ceil_index((i * e.rate) as nat) < track@.len()));
            lemma_step_count_iff(track@.len(), e.rate as nat, i as nat);
        }
        if !within {
            // Source exhausted: all remaining steps are past the track.
            proof {
                assert forall|j: int| 0 <= j < len implies partial_contrib_at(
                    track@,
                    *e,
                    sr,
                    i as nat,
                    j,
                ) == contrib_at(track@, *e, sr, j) by {
                    lemma_partial_complete(track@, *e, sr, i as nat, len as int, j);
                }
            }
            return ;
        }
        let fl = fl_wide as usize;
        let s1: i64 = track[fl] as i64;
        let interp: i64 = if fr == 0 {
            s1 * 65536
        } else {
            proof {
                assert(-0x8000_0000 <= (s1 as int) * (65536 - fr as int) <= 0x8000_0000) by (
                nonlinear_arith)
                    requires
                        -32768 <= s1 as int <= 32767,
                        0 < (fr as int) && (fr as int) < 65536;
                let s2g = track@[fl + 1] as int;
                assert(-0x8000_0000 <= s2g * (fr as int) <= 0x8000_0000) by (nonlinear_arith)
                    requires
                        -32768 <= s2g <= 32767,
                        0 < (fr as int) && (fr as int) < 65536;
            }
            let s2: i64 = track[fl + 1] as i64;
            s1 * ((65536 - fr) as i64) + s2 * (fr as i64)
        };
        proof {
            assert(interp == interp_at(track@, (i * e.rate) as nat));
            lemma_interp_bound(track@, (i * e.rate) as nat);
        }
        proof {
            assert(abs((interp as int) * (e.volume as int)) <= contrib_bound()) by (
            nonlinear_arith)
                requires
                    abs(interp as int) <= 0x8000_0000,
                    0 <= e.volume as int <= 0xffff_ffff,
                    contrib_bound() == (0x8000_0000 as int) * (0xffff_ffff as int);
        }
        let cell: i128 = (interp as i128) * volume;
        proof {
            assert(partial_contrib_at(track@, *e, sr, i as nat, pos + i) == 0);
            assert(abs(buf@[pos + i] as int) <= (0xffff_ffff_ffff_ffff as int) * contrib_bound());
        }
        let idx = pos + i;
        let prev = buf[idx];
        buf[idx] = prev + cell;
        proof {
            assert forall|j: int| 0 <= j < len implies buf@[j] == orig[j] + partial_contrib_at(
                track@,
                *e,
                sr,
                (i + 1) as nat,
                j,
            ) by {
                if j == idx {
                    assert(partial_contrib_at(track@, *e, sr, (i + 1) as nat, j) == interp_at(
                        track@,
                        (i * e.rate) as nat,
                    ) * e.volume);
                } else {
                    assert(partial_contrib_at(track@, *e, sr, (i + 1) as nat, j)
                        == partial_contrib_at(track@, *e, sr, i as nat, j));
                }
            }
        }
        proof {
            assert((i + 1) * (e.rate as int) == i * (e.rate as int) + (e.rate as int)) by (
            nonlinear_arith);
        }
        cursor = cursor + e.rate as u128;
        i = i + 1;
    }
    // The loop ran to the end of the buffer: every cell below `len` got
    // its full share.
    proof {
        assert forall|j: int| 0 <= j < len implies partial_contrib_at(
            track@,
            *e,
            sr,
            i as nat,
            j,
        ) == contrib_at(track@, *e, sr, j) by {
            lemma_partial_complete(track@, *e, sr, i as nat, len as int, j);
        }
    }
}

/// The mix buffer length for this timeline, as the executable mixer
/// computes it.
fn buffer_length(duration: u64, sample_rate: u32) -> (n: usize)
    requires
        buffer_len(duration as nat, sample_rate as nat) <= usize::MAX,
    ensures
        n == buffer_len(duration as nat, sample_rate as nat),
{
    proof {
        assert((duration as int) * (sample_rate as int) <= (0xffff_ffff_ffff_ffff as int) * (
        0xffff_ffff as int)) by (nonlinear_arith)
            requires
                0 <= duration as int <= 0xffff_ffff_ffff_ffff as int,
                0 <= sample_rate as int <= 0xffff_ffff as int;
    }
    let prod: u128 = (duration as u128) * (sample_rate as u128);
    let wide = ((prod + 65535) / 65536) * 2;
    wide as usize
}

/// Mixes every placement onto a fresh, zero-filled interleaved stereo
/// buffer of [`buffer_len`] cells and returns it. Cell `j` of the
/// result is exactly [`mix_at`]: the sum over all events of that
/// event's contribution, in any order. Events reaching past the end of
/// the buffer are truncated there; events starting past the end add
/// nothing; neither is an error. If any event names a sound absent
/// from the store the whole mix is refused — the first such event's
/// key comes back in [`MixError::UnknownSound`] and no buffer of any
/// kind is produced.
pub fn mix_audio(
    tracks: &TrackStore,
    timestamps: &Vec<Timestamp>,
    duration: u64,
    sample_rate: u32,
) -> (r: Result<Vec<i128>, MixError>)
    requires
        buffer_len(duration as nat, sample_rate as nat) <= usize::MAX,
        forall|k: int| 0 <= k < timestamps@.len() ==> (#[trigger] timestamps@[k]).rate >= 1,
    ensures
        (r is Ok) <==> all_resolved(tracks@, timestamps@),
        r matches Ok(buf) ==> {
            &&& buf@.len() == buffer_len(duration as nat, sample_rate as nat)
            &&& forall|j: int|
                0 <= j < buf@.len() ==> #[trigger] buf@[j] == mix_at(
                    tracks@,
                    timestamps@,
                    sample_rate as nat,
                    j,
                )
        },
        r matches Err(MixError::UnknownSound(key)) ==> {
            let m = first_unresolved(tracks@, timestamps@);
            &&& 0 <= m < timestamps@.len()
            &&& key@ == timestamps@[m].sound@
            &&& assoc_lookup(tracks@, key@) is None
        },
{
    let n = timestamps.len();
    // First pass: every placement must resolve, or the mix is refused
    // before anything is built.
    let mut k: usize = 0;
    while k < n
        invariant
            n == timestamps@.len(),
            k <= n,
            forall|m: int|
                0 <= m < k ==> assoc_lookup(tracks@, (#[trigger] timestamps@[m]).sound@) is Some,
        decreases n - k,
    {
        if tracks.get(&timestamps[k].sound).is_none() {
            proof {
                lemma_first_unresolved_at(tracks@, timestamps@, k as int);
            }
            return Err(MixError::UnknownSound(timestamps[k].sound.clone()));
        }
        k = k + 1;
    }
    let len = buffer_length(duration, sample_rate);
    let ghost sr = sample_rate as nat;
    let mut buf: Vec<i128> = Vec::new();
    while buf.len() < len
        invariant
            buf@.len() <= len,
            forall|j: int| 0 <= j < buf@.len() ==> #[trigger] buf@[j] == 0,
        decreases len - buf@.len(),
    {
        buf.push(0);
    }
    proof {
        assert(timestamps@.take(0) =~= Seq::<Timestamp>::empty());
    }
    // Second pass: add each event in the given order. The order cannot
    // matter: each cell ends up the plain sum of contributions.
    let mut k: usize = 0;
    while k < n
        invariant
            n == timestamps@.len(),
            k <= n,
            buf@.len() == len,
            len == buffer_len(duration as nat, sr),
            sr == sample_rate as nat,
            all_resolved(tracks@, timestamps@),
            forall|m: int| 0 <= m < n ==> (#[trigger] timestamps@[m]).rate >= 1,
            forall|j: int|
                0 <= j < len ==> #[trigger] buf@[j] == mix_at(
                    tracks@,
                    timestamps@.take(k as int),
                    sr,
                    j,
                ),
        decreases n - k,
    {
        let e = &timestamps[k];
        match tracks.get(&e.sound) {
            Some(track) => {
                proof {
                    assert(timestamps@.take(k as int).len() == k as int);
                    assert forall|j: int| 0 <= j < len implies abs(#[trigger] buf@[j] as int) <= (
                    0xffff_ffff_ffff_ffff as int) * contrib_bound() by {
                        lemma_mix_bound(tracks@, timestamps@.take(k as int), sr, j);
                        assert(forall|m: int|
                            0 <= m < k ==> timestamps@.take(k as int)[m] == timestamps@[m]);
                        lemma_mul_inequality(
                            k as int,
                            0xffff_ffff_ffff_ffff as int,
                            contrib_bound(),
                        );
                    }
                }
                place_event(&mut buf, track, e, sample_rate);
                proof {
                    assert forall|j: int| 0 <= j < len implies buf@[j] == mix_at(
                        tracks@,
                        timestamps@.take(k + 1),
                        sr,
                        j,
                    ) by {
                        lemma_mix_at_take_step(tracks@, timestamps@, sr, k as int, j);
                    }
                }
            },
            None => {
                proof {
                    assert(false);
                }
            },
        }
        k = k + 1;
    }
    proof {
        assert(timestamps@.take(n as int) =~= timestamps@);
    }
    Ok(buf)
}

/// Whether event `e` writes buffer cell `j` at all: `j` lies in the
/// half-open cell range the event covers.
pub open spec fn event_covers(
    store: Seq<(Seq<char>, Seq<i16>)>,
    e: Timestamp,
    sample_rate: nat,
    j: int,
) -> bool {
    let pos = position_of(e.time as nat, sample_rate) as int;
    match assoc_lookup(store, e.sound@) {
        Some(track) => pos <= j < pos + step_count(track.len(), e.rate as nat),
        None => false,
    }
}

/// Two events whose cell ranges share no cell.
pub open spec fn events_disjoint(
    store: Seq<(Seq<char>, Seq<i16>)>,
    e1: Timestamp,
    e2: Timestamp,
    sample_rate: nat,
) -> bool {
    forall|j: int|
        !(#[trigger] event_covers(store, e1, sample_rate, j) && event_covers(
            store,
            e2,
            sample_rate,
            j,
        ))
}

/// An event adds nothing outside the cell range it covers.
pub proof fn lemma_contrib_outside(
    store: Seq<(Seq<char>, Seq<i16>)>,
    e: Timestamp,
    sample_rate: nat,
    j: int,
)
    requires
        !event_covers(store, e, sample_rate, j),
    ensures
        contrib_of(store, e, sample_rate, j) == 0,
{
}

/// Removing one event from the mix removes exactly its own
/// contribution from every cell.
pub proof fn lemma_mix_remove(
    store: Seq<(Seq<char>, Seq<i16>)>,
    events: Seq<Timestamp>,
    sample_rate: nat,
    i: int,
    j: int,
)
    requires
        0 <= i < events.len(),
    ensures
        mix_at(store, events, sample_rate, j) == mix_at(store, events.remove(i), sample_rate, j)
            + contrib_of(store, events[i], sample_rate, j),
    decreases events.len(),
{
    let last = events.len() - 1;
    if i == last {
        assert(events.remove(i) =~= events.drop_last());
    } else {
        assert(events.remove(i).drop_last() =~= events.drop_last().remove(i));
        assert(events.remove(i).last() == events.last());
        lemma_mix_remove(store, events.drop_last(), sample_rate, i, j);
        assert(events.drop_last()[i] == events[i]);
    }
}

/// Mixing order independence: two event lists that are permutations of
/// one another produce the same value in every buffer cell, because a
/// cell is a plain commutative sum of contributions.
pub proof fn lemma_mix_order_independent(
    store: Seq<(Seq<char>, Seq<i16>)>,
    events1: Seq<Timestamp>,
    events2: Seq<Timestamp>,
    sample_rate: nat,
    j: int,
)
    requires
        events1.to_multiset() == events2.to_multiset(),
    ensures
        mix_at(store, events1, sample_rate, j) == mix_at(store, events2, sample_rate, j),
    decreases events1.len(),
{
    broadcast use vstd::seq_lib::group_to_multiset_ensures;

    if events1.len() == 0 {
        assert(events2.len() == 0) by {
            assert(events1.to_multiset().len() == events1.len());
            assert(events2.to_multiset().len() == events2.len());
        }
    } else {
        let e = events1.last();
        let last = events1.len() - 1;
        assert(events1.contains(e));
        assert(events2.to_multiset().count(e) > 0);
        assert(events2.contains(e));
        let i2 = choose|i: int| 0 <= i < events2.len() && events2[i] == e;
        lemma_mix_remove(store, events2, sample_rate, i2, j);
        assert(events1.drop_last() =~= events1.remove(last));
        assert(events1.remove(last).to_multiset() == events1.to_multiset().remove(e));
        assert(events2.remove(i2).to_multiset() == events2.to_multiset().remove(e));
        lemma_mix_order_independent(
            store,
            events1.drop_last(),
            events2.remove(i2),
            sample_rate,
            j,
        );
    }
}

/// Where exactly one event's range covers a cell and no two ranges
/// overlap, the mixed cell is exactly that event's own placed samples:
/// a non-overlapping timeline is the plain concatenation of its events.
pub proof fn lemma_non_overlapping_isolated(
    store: Seq<(Seq<char>, Seq<i16>)>,
    events: Seq<Timestamp>,
    sample_rate: nat,
    k: int,
    j: int,
)
    requires
        forall|a: int, b: int|
            0 <= a < b < events.len() ==> events_disjoint(
                store,
                #[trigger] events[a],
                #[trigger] events[b],
                sample_rate,
            ),
        0 <= k < events.len(),
        event_covers(store, events[k], sample_rate, j),
    ensures
        mix_at(store, events, sample_rate, j) == contrib_of(store, events[k], sample_rate, j),
    decreases events.len(),
{
    let last = events.len() - 1;
    if k == last {
        lemma_mix_covered_by_none(store, events.drop_last(), events[k], sample_rate, j);
    } else {
        assert(events_disjoint(store, events[k], events[last], sample_rate));
        lemma_contrib_outside(store, events[last], sample_rate, j);
        assert(forall|m: int| 0 <= m < last ==> events.drop_last()[m] == events[m]);
        lemma_non_overlapping_isolated(store, events.drop_last(), sample_rate, k, j);
    }
}

/// If no event in the list covers cell `j` (each is disjoint from a
/// covering witness), the mix at `j` is zero.
proof fn lemma_mix_covered_by_none(
    store: Seq<(Seq<char>, Seq<i16>)>,
    events: Seq<Timestamp>,
    witness: Timestamp,
    sample_rate: nat,
    j: int,
)
    requires
        event_covers(store, witness, sample_rate, j),
        forall|m: int|
            0 <= m < events.len() ==> events_disjoint(
                store,
                #[trigger] events[m],
                witness,
                sample_rate,
            ),
    ensures
        mix_at(store, events, sample_rate, j) == 0,
    decreases events.len(),
{
    if events.len() > 0 {
        assert(events_disjoint(store, events.last(), witness, sample_rate));
        lemma_contrib_outside(store, events.last(), sample_rate, j);
        assert(forall|m: int| 0 <= m < events.len() - 1 ==> events.drop_last()[m] == events[m]);
        lemma_mix_covered_by_none(store, events.drop_last(), witness, sample_rate, j);
    }
}

/// The same placement with another volume.
pub open spec fn with_volume(e: Timestamp, volume: u32) -> Timestamp {
    Timestamp { sound: e.sound, time: e.time, volume, rate: e.rate }
}

/// Volume scaling is linear: doubling one event's volume adds exactly
/// that event's present contribution to every cell once more, and every
/// other event's share is untouched.
pub proof fn lemma_volume_doubling(
    store: Seq<(Seq<char>, Seq<i16>)>,
    events: Seq<Timestamp>,
    sample_rate: nat,
    k: int,
    j: int,
)
    requires
        0 <= k < events.len(),
        2 * events[k].volume <= u32::MAX,
    ensures
        mix_at(
            store,
            events.update(k, with_volume(events[k], (2 * events[k].volume) as u32)),
            sample_rate,
            j,
        ) == mix_at(store, events, sample_rate, j) + contrib_of(store, events[k], sample_rate, j),
{
    let e = events[k];
    let e2 = with_volume(e, (2 * e.volume) as u32);
    assert(contrib_of(store, e2, sample_rate, j) == 2 * contrib_of(store, e, sample_rate, j)) by {
        match assoc_lookup(store, e.sound@) {
            Some(track) => {
                let pos = position_of(e.time as nat, sample_rate) as int;
                let i = j - pos;
                if 0 <= i && i < step_count(track.len(), e.rate as nat) {
                    let v = interp_at(track, (i * e.rate) as nat);
                    assert(v * ((2 * e.volume) as u32) == 2 * (v * e.volume)) by (nonlinear_arith)
                        requires
                            2 * e.volume <= u32::MAX;
                }
            },
            None => {},
        }
    }
    let doubled = events.update(k, e2);
    lemma_mix_remove(store, doubled, sample_rate, k, j);
    lemma_mix_remove(store, events, sample_rate, k, j);
    assert(doubled.remove(k) =~= events.remove(k));
    assert(doubled[k] == e2);
}

/// At playback rate 1.0 the interpolation path is the direct copy: the
/// step count is the whole track and every interpolated value is the
/// plain sample (at the fixed-point scale), bit for bit.
pub proof fn lemma_rate_one_is_direct(track: Seq<i16>, i: nat)
    requires
        i < track.len(),
    ensures
        step_count(track.len(), RATE_ONE as nat) == track.len(),
        interp_at(track, i * (RATE_ONE as nat)) == track[i as int] * (RATE_ONE as int),
{
    let r = RATE_ONE as int;
    let len = track.len() as int;
    assert(((len - 1) * r) / r == len - 1) by {
        lemma_mul_is_commutative(len - 1, r);
        vstd::arithmetic::div_mod::lemma_div_multiples_vanish(len - 1, r);
    }
    let c = (i as int) * r;
    assert(c % r == 0) by {
        vstd::arithmetic::div_mod::lemma_mod_multiples_basic(i as int, r);
    }
    assert(c / r == i as int) by {
        lemma_mul_is_commutative(i as int, r);
        vstd::arithmetic::div_mod::lemma_div_multiples_vanish(i as int, r);
    }
}

/// Doubling the playback rate halves, rounding up, the number of
/// output cells an event draws from its track: at rate 1.0 a track of
/// `n` samples fills `n` cells, at rate 2.0 it fills `(n + 1) / 2`.
pub proof fn lemma_double_rate_halves(track_len: nat)
    ensures
        track_len > 0 ==> step_count(track_len, RATE_ONE as nat) == track_len,
        step_count(track_len, 2 * (RATE_ONE as nat)) == (track_len + 1) / 2,
{
    let r = RATE_ONE as int;
    let len = track_len as int;
    if track_len == 0 {
    } else {
        assert(((len - 1) * r) / r == len - 1) by {
            lemma_mul_is_commutative(len - 1, r);
            vstd::arithmetic::div_mod::lemma_div_multiples_vanish(len - 1, r);
        }
        assert(((len - 1) * r) / (2 * r) == (len - 1) / 2) by {
            vstd::arithmetic::div_mod::lemma_div_denominator((len - 1) * r, r, 2);
            assert(r * 2 == 2 * r);
        }
        assert((len - 1) / 2 + 1 == (len + 1) / 2) by {
            vstd::arithmetic::div_mod::lemma_div_plus_one(len - 1, 2);
        }
    }
}

} // verus!
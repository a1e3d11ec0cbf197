//! The decisions of the replay engine: windowing a recording by start and
//! stop offsets, validating the bus number, and computing each event's
//! pacing delay.
//!
//! Every delay is computed against the start of the replay loop, not the
//! previous event's dispatch time, so scheduler jitter does not accumulate.

use vstd::prelude::*;

verus! {

use crate::recording::HidEvent;
use crate::recording::EventModel;

/// The events at or after the start offset.
pub open spec fn spec_drop_before(evs: Seq<EventModel>, start_us: u64) -> Seq<EventModel>
    decreases evs.len(),
{
    if evs.len() == 0 {
        Seq::empty()
    } else if evs[0].timestamp_usecs < start_us {
        spec_drop_before(evs.skip(1), start_us)
    } else {
        evs
    }
}

/// The events before the stop offset; a zero stop offset means no stop.
pub open spec fn spec_take_until(evs: Seq<EventModel>, stop_us: u64) -> Seq<EventModel>
    decreases evs.len(),
{
    if evs.len() == 0 {
        Seq::empty()
    } else if stop_us == 0 || evs[0].timestamp_usecs < stop_us {
        seq![evs[0]] + spec_take_until(evs.skip(1), stop_us)
    } else {
        Seq::empty()
    }
}

/// The replay window: drop events before the start offset, stop at the
/// first event at or past the stop offset.
pub open spec fn spec_window(evs: Seq<EventModel>, start_us: u64, stop_us: u64) -> Seq<
    EventModel,
> {
    spec_take_until(spec_drop_before(evs, start_us), stop_us)
}

proof fn lemma_drop_before_at(evs: Seq<EventModel>, start_us: u64, a: int)
    requires
        0 <= a <= evs.len(),
        forall|j: int| 0 <= j < a ==> (#[trigger] evs[j]).timestamp_usecs < start_us,
        a < evs.len() ==> evs[a].timestamp_usecs >= start_us,
    ensures
        spec_drop_before(evs, start_us) == evs.skip(a),
    decreases a,
{
    if a == 0 {
        assert(evs.skip(0) =~= evs);
    } else {
        lemma_drop_before_at(evs.skip(1), start_us, a - 1);
        assert forall|j: int| 0 <= j < a - 1 implies (#[trigger] evs.skip(1)[j]).timestamp_usecs
            < start_us by {
            assert(evs.skip(1)[j] == evs[j + 1]);
        }
        assert(evs.skip(1).skip(a - 1) =~= evs.skip(a));
    }
}

proof fn lemma_take_until_at(evs: Seq<EventModel>, stop_us: u64, b: int)
    requires
        0 <= b <= evs.len(),
        forall|j: int|
            0 <= j < b ==> stop_us == 0 || (#[trigger] evs[j]).timestamp_usecs < stop_us,
        b < evs.len() ==> (stop_us != 0 && evs[b].timestamp_usecs >= stop_us),
    ensures
        spec_take_until(evs, stop_us) == evs.take(b),
    decreases b,
{
    if b == 0 {
        assert(evs.take(0) =~= Seq::<EventModel>::empty());
    } else {
        lemma_take_until_at(evs.skip(1), stop_us, b - 1);
        assert forall|j: int| 0 <= j < b - 1 implies stop_us == 0 || (#[trigger] evs.skip(
            1,
        )[j]).timestamp_usecs < stop_us by {
            assert(evs.skip(1)[j] == evs[j + 1]);
        }
        if b < evs.len() {
            assert(evs.skip(1)[b - 1] == evs[b as int]);
        }
        assert(seq![evs[0]] + evs.skip(1).take(b - 1) =~= evs.take(b));
    }
}

/// Windows a recording's events by the requested start and stop offsets, in
/// milliseconds as the command line gives them: events before the start
/// offset are skipped, events at or past a non-zero stop offset end the
/// replay.
pub fn window_events(events: Vec<HidEvent>, start_ms: u64, stop_ms: u64) -> (r: Vec<HidEvent>)
    requires
        start_ms <= u64::MAX / 1000,
        stop_ms <= u64::MAX / 1000,
    ensures
        r@.map_values(|e: HidEvent| e.view()) == spec_window(
            events@.map_values(|e: HidEvent| e.view()),
            (start_ms * 1000) as u64,
            (stop_ms * 1000) as u64,
        ),
{
    proof {
        vstd::arithmetic::div_mod::lemma_fundamental_div_mod(u64::MAX as int, 1000);
        vstd::arithmetic::mul::lemma_mul_inequality(
            start_ms as int,
            (u64::MAX / 1000) as int,
            1000,
        );
        vstd::arithmetic::mul::lemma_mul_inequality(
            stop_ms as int,
            (u64::MAX / 1000) as int,
            1000,
        );
        vstd::arithmetic::mul::lemma_mul_is_commutative(start_ms as int, 1000);
        vstd::arithmetic::mul::lemma_mul_is_commutative(stop_ms as int, 1000);
        vstd::arithmetic::mul::lemma_mul_is_commutative((u64::MAX / 1000) as int, 1000);
    }
    let start_us: u64 = start_ms * 1000;
    let stop_us: u64 = stop_ms * 1000;
    let ghost evs = events@.map_values(|e: HidEvent| e.view());
    let mut a: usize = 0;
    while a < events.len() && events[a].timestamp_usecs < start_us
        invariant
            a <= events@.len(),
            evs == events@.map_values(|e: HidEvent| e.view()),
            forall|j: int| 0 <= j < a ==> (#[trigger] evs[j]).timestamp_usecs < start_us,
        decreases events@.len() - a,
    {
        a = a + 1;
    }
    let mut b: usize = a;
    while b < events.len() && (stop_us == 0 || events[b].timestamp_usecs < stop_us)
        invariant
            a <= b <= events@.len(),
            evs == events@.map_values(|e: HidEvent| e.view()),
            forall|j: int|
                a <= j < b ==> stop_us == 0 || (#[trigger] evs[j]).timestamp_usecs < stop_us,
        decreases events@.len() - b,
    {
        b = b + 1;
    }
    proof {
        lemma_drop_before_at(evs, start_us, a as int);
        assert forall|j: int| 0 <= j < b - a implies stop_us == 0 || (#[trigger] evs.skip(
            a as int,
        )[j]).timestamp_usecs < stop_us by {
            assert(evs.skip(a as int)[j] == evs[j + a]);
        }
        if b < evs.len() {
            assert(evs.skip(a as int)[b - a] == evs[b as int]);
        }
        lemma_take_until_at(evs.skip(a as int), stop_us, b - a);
    }
    let mut out: Vec<HidEvent> = Vec::new();
    let mut rest = events;
    let mut k: usize = 0;
    proof {
        assert(evs.subrange(a as int, a as int) =~= Seq::<EventModel>::empty());
        assert(out@.map_values(|e: HidEvent| e.view()) =~= Seq::<EventModel>::empty());
    }
    while k < b - a
        invariant
            a <= b <= evs.len(),
            k <= b - a,
            rest@.map_values(|e: HidEvent| e.view()) =~= evs.subrange(0, a as int) + evs.subrange(
                a + k,
                evs.len() as int,
            ),
            out@.map_values(|e: HidEvent| e.view()) =~= evs.subrange(a as int, a + k),
        decreases b - a - k,
    {
        let ghost rest_view0 = rest@.map_values(|e: HidEvent| e.view());
        let ghost out_view0 = out@.map_values(|e: HidEvent| e.view());
        proof {
            assert(rest_view0.len() == rest@.len());
            assert(rest_view0.len() == a + (evs.len() - (a + k)));
            assert(a < rest@.len());
        }
        let ev = rest.remove(a);
        proof {
            assert(ev.view() == rest_view0[a as int]);
            assert(rest_view0[a as int] == evs[a + k]);
            assert(rest@.map_values(|e: HidEvent| e.view()) =~= rest_view0.remove(a as int));
            assert(rest_view0.remove(a as int) =~= evs.subrange(0, a as int) + evs.subrange(
                a + k + 1,
                evs.len() as int,
            ));
        }
        out.push(ev);
        proof {
            assert(out@.map_values(|e: HidEvent| e.view()) =~= out_view0.push(evs[a + k]));
            assert(out_view0.push(evs[a + k]) =~= evs.subrange(a as int, a + k + 1));
        }
        k = k + 1;
    }
    proof {
        assert(evs.subrange(a as int, b as int) =~= evs.skip(a as int).take(b - a));
    }
    out
}

/// The time offset a replay subtracts from every event: the requested start
/// offset when one was given, the first event's own timestamp otherwise.
pub fn replay_offset(start_ms: u64, stop_ms: u64, first_event_usecs: u64) -> (r: u64)
    requires
        start_ms <= u64::MAX / 1000,
    ensures
        r == if start_ms > 0 || stop_ms > 0 {
            (start_ms * 1000) as u64
        } else {
            first_event_usecs
        },
{
    proof {
        vstd::arithmetic::div_mod::lemma_fundamental_div_mod(u64::MAX as int, 1000);
        vstd::arithmetic::mul::lemma_mul_inequality(
            start_ms as int,
            (u64::MAX / 1000) as int,
            1000,
        );
        vstd::arithmetic::mul::lemma_mul_is_commutative(start_ms as int, 1000);
        vstd::arithmetic::mul::lemma_mul_is_commutative((u64::MAX / 1000) as int, 1000);
    }
    if start_ms > 0 || stop_ms > 0 {
        start_ms * 1000
    } else {
        first_event_usecs
    }
}

/// An event's pacing target: its timestamp relative to the replay offset.
pub fn replay_target(event_usecs: u64, offset_usecs: u64) -> (r: u64)
    ensures
        r == if event_usecs >= offset_usecs {
            event_usecs - offset_usecs
        } else {
            0
        },
{
    if event_usecs >= offset_usecs {
        event_usecs - offset_usecs
    } else {
        0
    }
}

/// How long to sleep before writing an event: the remainder of its pacing
/// target, measured from the start of the replay loop. After sleeping the
/// returned time, at least `target_usecs` have passed since loop start, so
/// an event is never written early; no catch-up is attempted for one that
/// is already late.
pub fn compute_wait(target_usecs: u64, elapsed_usecs: u64) -> (r: u64)
    ensures
        r == if target_usecs > elapsed_usecs {
            target_usecs - elapsed_usecs
        } else {
            0
        },
        elapsed_usecs + r >= target_usecs,
{
    if target_usecs > elapsed_usecs {
        target_usecs - elapsed_usecs
    } else {
        0
    }
}

/// Whether a bus number names a known transport that a virtual device can
/// be created on: the contiguous low range and the extended range.
pub fn known_bus(bustype: u16) -> (r: bool)
    ensures
        r == (1 <= bustype <= 6 || 16 <= bustype <= 31),
{
    (1 <= bustype && bustype <= 6) || (16 <= bustype && bustype <= 31)
}

} // verus!

//! How long until the next meeting, and the traffic-light thresholds.
use vstd::prelude::*;

use crate::calendar::{events_view, CalendarEvent, EventView};
use crate::time::valid_timestamp;

verus! {

/// Traffic-light color of the countdown.
#[derive(Debug, Clone, Copy, PartialEq, Eq, Structural)]
pub enum SemaphoreColor {
    Green,
    Yellow,
    Red,
}

/// Minutes before a meeting at which the icon changes.
#[derive(Debug, Clone, Copy, PartialEq, Eq, Structural)]
pub struct Thresholds {
    pub green_minutes: u32,
    pub yellow_minutes: u32,
    pub blink_minutes: u32,
}

/// The meeting the icon counts down to.
#[derive(Debug, Clone, PartialEq, Eq)]
pub struct NextMeeting {
    pub event: CalendarEvent,
    pub minutes_remaining: i64,
    pub color: SemaphoreColor,
    /// The last minute before it starts; independent of the color.
    pub blinking: bool,
}

pub struct NextMeetingView {
    pub event: EventView,
    pub minutes_remaining: i64,
    pub color: SemaphoreColor,
    pub blinking: bool,
}

impl View for NextMeeting {
    type V = NextMeetingView;

    open spec fn view(&self) -> NextMeetingView {
        NextMeetingView {
            event: self.event@,
            minutes_remaining: self.minutes_remaining,
            color: self.color,
            blinking: self.blinking,
        }
    }
}

/// How far ahead the next meeting is looked for: a rolling 24 hours.
pub const LOOKAHEAD_SECS: i64 = 86400;

/// An event the icon may count down to: not a whole day, not started yet, and starting within
/// the next 24 hours.
pub open spec fn eligible(e: EventView, now: i64) -> bool {
    !e.all_day && now < e.start && e.start < now + LOOKAHEAD_SECS
}

/// The color for the minutes left: green above the green threshold, yellow from the yellow
/// threshold up to the green one, red below the yellow one.
pub open spec fn spec_classify_color(minutes: int, t: Thresholds) -> SemaphoreColor {
    if minutes > t.green_minutes {
        SemaphoreColor::Green
    } else if minutes >= t.yellow_minutes {
        SemaphoreColor::Yellow
    } else {
        SemaphoreColor::Red
    }
}

/// The color for the minutes left.
pub fn classify_color(minutes_remaining: i64, thresholds: &Thresholds) -> (r: SemaphoreColor)
    ensures
        r == spec_classify_color(minutes_remaining as int, *thresholds),
{
    if minutes_remaining > thresholds.green_minutes as i64 {
        SemaphoreColor::Green
    } else if minutes_remaining >= thresholds.yellow_minutes as i64 {
        SemaphoreColor::Yellow
    } else {
        SemaphoreColor::Red
    }
}

/// The color for the exact seconds left: green with more than the green threshold's minutes
/// left, yellow with at least the yellow threshold's minutes, red with less.
pub open spec fn color_at(secs: int, t: Thresholds) -> SemaphoreColor {
    if secs > t.green_minutes * 60 {
        SemaphoreColor::Green
    } else if secs >= t.yellow_minutes * 60 {
        SemaphoreColor::Yellow
    } else {
        SemaphoreColor::Red
    }
}

/// The color for the exact seconds left.
fn color_for_seconds(secs: i64, thresholds: &Thresholds) -> (r: SemaphoreColor)
    ensures
        r == color_at(secs as int, *thresholds),
{
    let s = secs as i128;
    if s > thresholds.green_minutes as i128 * 60 {
        SemaphoreColor::Green
    } else if s >= thresholds.yellow_minutes as i128 * 60 {
        SemaphoreColor::Yellow
    } else {
        SemaphoreColor::Red
    }
}

/// The icon blinks from `blink_minutes` minutes before the start, to the second.
pub open spec fn blinks_at(secs: int, t: Thresholds) -> bool {
    secs <= t.blink_minutes * 60
}

/// Whether the icon blinks with `secs` seconds left.
fn blinks_for_seconds(secs: i64, thresholds: &Thresholds) -> (r: bool)
    ensures
        r == blinks_at(secs as int, *thresholds),
{
    secs as i128 <= thresholds.blink_minutes as i128 * 60
}

/// Among the first `n` events, the position of the eligible one that starts first (the
/// earliest position among those that start together).
pub open spec fn next_index(evs: Seq<EventView>, now: i64, n: int) -> Option<int>
    decreases n,
{
    if n <= 0 {
        None
    } else {
        let prev = next_index(evs, now, n - 1);
        if !eligible(evs[n - 1], now) {
            prev
        } else {
            match prev {
                None => Some(n - 1),
                Some(p) => if evs[n - 1].start < evs[p].start {
                    Some(n - 1)
                } else {
                    prev
                },
            }
        }
    }
}

/// The countdown to an event: whole minutes left, and the color and blinking that the exact
/// seconds left give.
pub open spec fn meeting_of(e: EventView, now: i64, t: Thresholds) -> NextMeetingView {
    let secs = e.start - now;
    NextMeetingView {
        event: e,
        minutes_remaining: (secs / 60) as i64,
        color: color_at(secs, t),
        blinking: blinks_at(secs, t),
    }
}

/// The countdown to the next meeting, if one is eligible.
pub open spec fn spec_find_next_meeting(evs: Seq<EventView>, now: i64, t: Thresholds) -> Option<
    NextMeetingView,
> {
    match next_index(evs, now, evs.len() as int) {
        Some(i) => Some(meeting_of(evs[i], now, t)),
        None => None,
    }
}

/// The countdowns to the eligible events among the first `n` that start at `start`, in order.
pub open spec fn meetings_at(evs: Seq<EventView>, now: i64, t: Thresholds, start: i64, n: int) -> Seq<
    NextMeetingView,
>
    decreases n,
{
    if n <= 0 {
        Seq::empty()
    } else {
        let prev = meetings_at(evs, now, t, start, n - 1);
        if eligible(evs[n - 1], now) && evs[n - 1].start == start {
            prev.push(meeting_of(evs[n - 1], now, t))
        } else {
            prev
        }
    }
}

/// The countdowns to every eligible event that starts together with the next meeting, in
/// order; empty when none is eligible.
pub open spec fn spec_find_next_meetings(evs: Seq<EventView>, now: i64, t: Thresholds) -> Seq<
    NextMeetingView,
> {
    match next_index(evs, now, evs.len() as int) {
        Some(i) => meetings_at(evs, now, t, evs[i].start, evs.len() as int),
        None => Seq::empty(),
    }
}

/// `next_index` finds an eligible event that starts no later than any other eligible event
/// and strictly earlier than the eligible events before it; it finds nothing only when no
/// event is eligible.
pub proof fn lemma_next_index(evs: Seq<EventView>, now: i64, n: int)
    requires
        0 <= n <= evs.len(),
    ensures
        next_index(evs, now, n) matches Some(i) ==> {
            &&& 0 <= i < n
            &&& eligible(evs[i], now)
            &&& forall|j: int| 0 <= j < n && eligible(evs[j], now) ==> evs[i].start <= evs[j].start
            &&& forall|j: int| 0 <= j < i && eligible(evs[j], now) ==> evs[i].start < evs[j].start
        },
        next_index(evs, now, n) is None ==> forall|j: int| 0 <= j < n ==> !eligible(evs[j], now),
    decreases n,
{
    if n > 0 {
        lemma_next_index(evs, now, n - 1);
    }
}

/// The next meeting: among the events that are not whole days and start after `now` but
/// within the next 24 hours, the one that starts first (the earliest listed of those that
/// start together), with the whole minutes left and the color and blinking of the exact seconds
/// left (see `meeting_of`). `None` exactly when no event qualifies.
pub fn find_next_meeting(events: &Vec<CalendarEvent>, now: i64, thresholds: &Thresholds) -> (r: Option<
    NextMeeting,
>)
    requires
        valid_timestamp(now as int),
        valid_timestamp(now + LOOKAHEAD_SECS),
    ensures
        match r {
            Some(m) => spec_find_next_meeting(events_view(events@), now, *thresholds) == Some(m@),
            None => spec_find_next_meeting(events_view(events@), now, *thresholds) is None,
        },
        r is None <==> forall|j: int|
            0 <= j < events.len() ==> !eligible(#[trigger] events@[j]@, now),
        r matches Some(m) ==> {
            &&& eligible(m.event@, now)
            &&& forall|j: int|
                0 <= j < events.len() && eligible(#[trigger] events@[j]@, now) ==> m.event.start
                    <= events@[j].start
        },
{
    let ghost evs = events_view(events@);
    let best = next_position(events, now);
    proof {
        lemma_next_index(evs, now, evs.len() as int);
        assert forall|j: int| 0 <= j < events.len() implies #[trigger] events@[j]@ == evs[j] by {}
    }
    match best {
        None => None,
        Some(i) => {
            let event = events[i].duplicate();
            let secs = event.start - now;
            let minutes_remaining = secs / 60;
            let color = color_for_seconds(secs, thresholds);
            let blinking = blinks_for_seconds(secs, thresholds);
            Some(NextMeeting { event, minutes_remaining, color, blinking })
        },
    }
}

/// The position of the next meeting among `events`.
fn next_position(events: &Vec<CalendarEvent>, now: i64) -> (r: Option<usize>)
    requires
        valid_timestamp(now as int),
        valid_timestamp(now + LOOKAHEAD_SECS),
    ensures
        match r {
            Some(i) => i < events.len() && next_index(
                events_view(events@),
                now,
                events.len() as int,
            ) == Some(i as int),
            None => next_index(events_view(events@), now, events.len() as int) is None,
        },
{
    let ghost evs = events_view(events@);
    let horizon = now + LOOKAHEAD_SECS;
    let mut best: Option<usize> = None;
    let mut k: usize = 0;
    while k < events.len()
        invariant
            k <= events.len(),
            evs == events_view(events@),
            horizon == now + LOOKAHEAD_SECS,
            match best {
                Some(i) => i < k && next_index(evs, now, k as int) == Some(i as int),
                None => next_index(evs, now, k as int) is None,
            },
        decreases events.len() - k,
    {
        let e = &events[k];
        assert(evs[k as int] == e@);
        if !e.all_day && now < e.start && e.start < horizon {
            match best {
                None => {
                    best = Some(k);
                },
                Some(p) => {
                    assert(evs[p as int] == events@[p as int]@);
                    if e.start < events[p].start {
                        best = Some(k);
                    }
                },
            }
        }
        k = k + 1;
    }
    best
}

/// Every eligible event that starts together with the next meeting, in order, each with its
/// countdown; empty exactly when no event is eligible.
pub fn find_next_meetings(events: &Vec<CalendarEvent>, now: i64, thresholds: &Thresholds) -> (r: Vec<
    NextMeeting,
>)
    requires
        valid_timestamp(now as int),
        valid_timestamp(now + LOOKAHEAD_SECS),
    ensures
        r@.map_values(|m: NextMeeting| m@) == spec_find_next_meetings(
            events_view(events@),
            now,
            *thresholds,
        ),
{
    let ghost evs = events_view(events@);
    let mut out: Vec<NextMeeting> = Vec::new();
    let first = match next_position(events, now) {
        None => {
            assert(out@.map_values(|m: NextMeeting| m@) =~= Seq::<NextMeetingView>::empty());
            return out;
        },
        Some(i) => i,
    };
    let target = events[first].start;
    assert(evs[first as int] == events@[first as int]@);
    let horizon = now + LOOKAHEAD_SECS;
    let mut k: usize = 0;
    assert(out@.map_values(|m: NextMeeting| m@) =~= meetings_at(evs, now, *thresholds, target, 0));
    while k < events.len()
        invariant
            k <= events.len(),
            evs == events_view(events@),
            horizon == now + LOOKAHEAD_SECS,
            out@.map_values(|m: NextMeeting| m@) == meetings_at(evs, now, *thresholds, target, k as int),
        decreases events.len() - k,
    {
        let e = &events[k];
        assert(evs[k as int] == e@);
        if !e.all_day && now < e.start && e.start < horizon && e.start == target {
            let event = e.duplicate();
            let secs = event.start - now;
            let minutes_remaining = secs / 60;
            let color = color_for_seconds(secs, thresholds);
            let blinking = blinks_for_seconds(secs, thresholds);
            let ghost before = out@.map_values(|m: NextMeeting| m@);
            out.push(NextMeeting { event, minutes_remaining, color, blinking });
            assert(out@.map_values(|m: NextMeeting| m@) =~= before.push(
                meeting_of(evs[k as int], now, *thresholds),
            ));
        }
        k = k + 1;
    }
    out
}


// ---------------------------------------------------------------------------
// Laws
// ---------------------------------------------------------------------------

/// How urgent a color is: green 0, yellow 1, red 2.
pub open spec fn urgency(c: SemaphoreColor) -> int {
    match c {
        SemaphoreColor::Green => 0,
        SemaphoreColor::Yellow => 1,
        SemaphoreColor::Red => 2,
    }
}

/// As the meeting approaches the light only gets more urgent: less time left never gives a
/// greener color or stops the blinking, whatever the thresholds; and a color read in whole
/// minutes is the color of those minutes counted in seconds.
pub proof fn lemma_color_monotonic(s1: int, s2: int, t: Thresholds)
    requires
        s1 <= s2,
    ensures
        urgency(color_at(s1, t)) >= urgency(color_at(s2, t)),
        urgency(spec_classify_color(s1, t)) >= urgency(spec_classify_color(s2, t)),
        blinks_at(s2, t) ==> blinks_at(s1, t),
        spec_classify_color(s1, t) == color_at(60 * s1, t),
{
}

proof fn lemma_meetings_at_prefix(evs: Seq<EventView>, now: i64, t: Thresholds, i: int, n: int)
    requires
        0 <= i < evs.len(),
        0 <= n <= evs.len(),
        eligible(evs[i], now),
        forall|j: int| 0 <= j < i && eligible(evs[j], now) ==> evs[i].start < evs[j].start,
    ensures
        n <= i ==> meetings_at(evs, now, t, evs[i].start, n).len() == 0,
        n > i ==> meetings_at(evs, now, t, evs[i].start, n).len() >= 1 && meetings_at(
            evs,
            now,
            t,
            evs[i].start,
            n,
        )[0] == meeting_of(evs[i], now, t),
        forall|k: int|
            0 <= k < meetings_at(evs, now, t, evs[i].start, n).len() ==> (#[trigger] meetings_at(
                evs,
                now,
                t,
                evs[i].start,
                n,
            )[k]).event.start == evs[i].start,
    decreases n,
{
    if n > 0 {
        lemma_meetings_at_prefix(evs, now, t, i, n - 1);
        let prev = meetings_at(evs, now, t, evs[i].start, n - 1);
        let cur = meetings_at(evs, now, t, evs[i].start, n);
        assert forall|k: int| 0 <= k < cur.len() implies (#[trigger] cur[k]).event.start
            == evs[i].start by {
            if k < prev.len() {
                assert(cur[k] == prev[k]);
            }
        }
    }
}

/// The meetings announced together are exactly those that start with the next meeting: the
/// group is empty when there is no next meeting, begins with it otherwise, and all of its
/// meetings start at the same instant.
pub proof fn lemma_next_meetings_group(evs: Seq<EventView>, now: i64, t: Thresholds)
    ensures
        spec_find_next_meetings(evs, now, t).len() > 0 <==> spec_find_next_meeting(evs, now, t) is Some,
        spec_find_next_meeting(evs, now, t) matches Some(m) ==> {
            &&& spec_find_next_meetings(evs, now, t)[0] == m
            &&& forall|k: int|
                0 <= k < spec_find_next_meetings(evs, now, t).len() ==> (
                #[trigger] spec_find_next_meetings(evs, now, t)[k]).event.start == m.event.start
        },
{
    lemma_next_index(evs, now, evs.len() as int);
    if let Some(i) = next_index(evs, now, evs.len() as int) {
        lemma_meetings_at_prefix(evs, now, t, i, evs.len() as int);
    }
}

} // verus!

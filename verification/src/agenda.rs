//! The day's agenda: which events it lists, the status dot of each row, the row text, and
//! the flyout's layout.
use vstd::prelude::*;

use crate::calendar::{events_view, CalendarEvent, EventView};
use crate::text::{nat_decimal, push_char, push_str};
use crate::time::valid_timestamp;
use chrono::TimeZone;

verus! {

/// Where an event stands relative to now.
#[derive(Debug, Clone, Copy, PartialEq, Eq, Structural)]
pub enum RowStatus {
    /// Already over (gray).
    Past,
    /// Happening now (red).
    Ongoing,
    /// About to start (yellow).
    Near,
    /// Still ahead (green).
    Future,
    /// A whole-day event (blue).
    AllDay,
}

/// The dot color of each status.
pub open spec fn spec_row_color(s: RowStatus) -> [u8; 3] {
    match s {
        RowStatus::Past => [140u8, 140u8, 140u8],
        RowStatus::Ongoing => [201u8, 42u8, 42u8],
        RowStatus::Near => [212u8, 168u8, 24u8],
        RowStatus::Future => [46u8, 160u8, 67u8],
        RowStatus::AllDay => [90u8, 110u8, 200u8],
    }
}

impl RowStatus {
    /// The dot color of this status.
    pub fn color(self) -> (c: [u8; 3])
        ensures
            c == spec_row_color(self),
    {
        match self {
            RowStatus::Past => [140, 140, 140],
            RowStatus::Ongoing => [201, 42, 42],
            RowStatus::Near => [212, 168, 24],
            RowStatus::Future => [46, 160, 67],
            RowStatus::AllDay => [90, 110, 200],
        }
    }
}

/// Where an event stands at `now`: whole days apart; over once it has ended; ongoing once it
/// has started; near when it starts within `near_minutes` whole minutes; ahead otherwise.
pub open spec fn spec_classify_row(e: EventView, now: i64, near_minutes: i64) -> RowStatus {
    if e.all_day {
        RowStatus::AllDay
    } else if e.end <= now {
        RowStatus::Past
    } else if e.start <= now {
        RowStatus::Ongoing
    } else if (e.start - now) / 60 <= near_minutes {
        RowStatus::Near
    } else {
        RowStatus::Future
    }
}

/// Where an event stands at `now`.
pub fn classify_row(event: &CalendarEvent, now: i64, near_minutes: i64) -> (r: RowStatus)
    ensures
        r == spec_classify_row(event@, now, near_minutes),
{
    if event.all_day {
        return RowStatus::AllDay;
    }
    if event.end <= now {
        RowStatus::Past
    } else if event.start <= now {
        RowStatus::Ongoing
    } else if (event.start as i128 - now as i128) / 60 <= near_minutes as i128 {
        RowStatus::Near
    } else {
        RowStatus::Future
    }
}

/// Where a timed event stands, in terms of the times alone: over once it has ended, ongoing
/// once it has started, and before it starts near exactly when the whole minutes left are at
/// most `near_minutes` (ahead otherwise). Whole-day events are always apart.
pub proof fn lemma_row_status_by_time(e: EventView, now: i64, near_minutes: i64)
    ensures
        e.all_day ==> spec_classify_row(e, now, near_minutes) == RowStatus::AllDay,
        !e.all_day && e.end <= now ==> spec_classify_row(e, now, near_minutes) == RowStatus::Past,
        !e.all_day && now < e.end && e.start <= now ==> spec_classify_row(e, now, near_minutes)
            == RowStatus::Ongoing,
        !e.all_day && now < e.end && now < e.start ==> {
            &&& (spec_classify_row(e, now, near_minutes) == RowStatus::Near <==> (e.start - now) / 60
                <= near_minutes)
            &&& (spec_classify_row(e, now, near_minutes) == RowStatus::Future <==> (e.start - now)
                / 60 > near_minutes)
        },
{
}

/// How the near window moves with `near_minutes`: an event about to start that is near for
/// some window is near for every wider one, and ahead for every narrower one that ends before
/// its whole minutes left.
pub proof fn lemma_near_window_monotonic(e: EventView, now: i64, n1: i64, n2: i64)
    requires
        !e.all_day,
        now < e.end,
        now < e.start,
        n1 <= n2,
    ensures
        spec_classify_row(e, now, n1) == RowStatus::Near ==> spec_classify_row(e, now, n2)
            == RowStatus::Near,
        spec_classify_row(e, now, n2) == RowStatus::Future ==> spec_classify_row(e, now, n1)
            == RowStatus::Future,
        (e.start - now) / 60 > n1 && (e.start - now) / 60 <= n2 ==> spec_classify_row(e, now, n1)
            != spec_classify_row(e, now, n2),
{
}

// ---------------------------------------------------------------------------
// Local time
// ---------------------------------------------------------------------------

/// An instant whose local date and time `chrono` can compute in any time zone.
pub open spec fn local_safe(t: int) -> bool {
    valid_timestamp(t - 86400) && valid_timestamp(t + 86400)
}

/// The machine's offset from UTC, in seconds, at instant `ts`
/// (`Local.offset_from_utc_datetime(..).local_minus_utc()`, the offset that
/// `DateTime::with_timezone(&Local)` applies). Claims only what every `chrono` offset
/// satisfies, less than a day either way (`FixedOffset::east_opt`); which offset depends on
/// the machine's time zone.
#[verifier::external_body]
fn local_offset(ts: i64) -> (r: i32)
    requires
        local_safe(ts as int),
    ensures
        -86400 < r < 86400,
{
    chrono::Local.offset_from_utc_datetime(&chrono::DateTime::from_timestamp(ts, 0).unwrap().naive_utc()).local_minus_utc()
}

/// The day of a local clock reading `t` (seconds since the epoch, local time): days since
/// 1970-01-01, which names the local calendar date one for one.
pub open spec fn local_day(t: int) -> int {
    t / 86400
}

/// The seconds past local midnight of a local clock reading `t`.
pub open spec fn local_second_of_day(t: int) -> int {
    t % 86400
}

/// The day and the second of the day of a local clock reading.
fn day_and_second(x: i64) -> (r: (i64, i64))
    requires
        -8_500_000_000_000 <= x <= 8_500_000_000_000,
    ensures
        r.0 == local_day(x as int),
        r.1 == local_second_of_day(x as int),
        0 <= r.1 < 86400,
{
    let y = x + 8_640_000_000_000;
    let d = y / 86400;
    let sec = y % 86400;
    proof {
        let xi = x as int;
        let q = xi / 86400;
        let rem = xi % 86400;
        vstd::arithmetic::div_mod::lemma_fundamental_div_mod(xi, 86400);
        vstd::arithmetic::div_mod::lemma_mod_bound(xi, 86400);
        assert(y == (q + 100_000_000) * 86400 + rem) by (nonlinear_arith)
            requires
                y == xi + 8_640_000_000_000,
                xi == 86400 * q + rem,
        ;
        vstd::arithmetic::div_mod::lemma_fundamental_div_mod_converse(y as int, 86400, q + 100_000_000, rem);
    }
    (d - 100_000_000, sec)
}

/// The events kept by `keep`, in order.
pub open spec fn kept_events(evs: Seq<EventView>, keep: Seq<bool>, n: int) -> Seq<EventView>
    decreases n,
{
    if n <= 0 {
        Seq::empty()
    } else if keep[n - 1] {
        kept_events(evs, keep, n - 1).push(evs[n - 1])
    } else {
        kept_events(evs, keep, n - 1)
    }
}

/// For each event's local day, whether it is `today`.
pub open spec fn same_day_flags(days: Seq<int>, today: int) -> Seq<bool> {
    Seq::new(days.len(), |i: int| days[i] == today)
}

/// The local day of each event's start, with the offsets `offs`.
pub open spec fn start_days(evs: Seq<EventView>, offs: Seq<int>) -> Seq<int> {
    Seq::new(evs.len(), |i: int| local_day(evs[i].start + offs[i]))
}

/// The events whose local start day, `days[i]` for event `i`, is `today`, in order.
pub fn same_day_events(events: &Vec<CalendarEvent>, days: &Vec<i64>, today: i64) -> (r: Vec<
    CalendarEvent,
>)
    requires
        days.len() == events.len(),
    ensures
        events_view(r@) == kept_events(
            events_view(events@),
            same_day_flags(days@.map_values(|d: i64| d as int), today as int),
            events.len() as int,
        ),
{
    let ghost evs = events_view(events@);
    let ghost keep = same_day_flags(days@.map_values(|d: i64| d as int), today as int);
    let mut out: Vec<CalendarEvent> = Vec::new();
    let mut i: usize = 0;
    while i < events.len()
        invariant
            i <= events.len(),
            days.len() == events.len(),
            evs == events_view(events@),
            keep == same_day_flags(days@.map_values(|d: i64| d as int), today as int),
            events_view(out@) == kept_events(evs, keep, i as int),
        decreases events.len() - i,
    {
        let e = &events[i];
        assert(evs[i as int] == e@);
        let same = days[i] == today;
        assert(same == keep[i as int]);
        if same {
            out.push(e.duplicate());
        }
        i = i + 1;
    }
    out
}

/// The events that start on the local calendar day of `now` (not the rolling 24 hours of the
/// icon: the whole day, past events included), in order. Each instant is read on the local
/// clock with the machine's offset at that instant (less than a day either way, the same for
/// equal instants); an event is listed exactly when its start falls on the same local day as
/// `now`. So an event that starts exactly at `now` is always listed, and none that starts
/// three days or more away from `now` is.
pub fn events_for_today(events: &Vec<CalendarEvent>, now: i64) -> (r: Vec<CalendarEvent>)
    requires
        local_safe(now as int),
        forall|i: int| 0 <= i < events.len() ==> local_safe(#[trigger] events@[i].start as int),
    ensures
        exists|offs: Seq<int>, off_now: int|
            #![trigger start_days(events_view(events@), offs), local_day(now + off_now)]
            {
                &&& offs.len() == events.len()
                &&& -86400 < off_now < 86400
                &&& forall|i: int|
                    0 <= i < events.len() ==> -86400 < #[trigger] offs[i] < 86400 && (
                    events@[i].start == now ==> offs[i] == off_now)
                &&& events_view(r@) == kept_events(
                    events_view(events@),
                    same_day_flags(start_days(events_view(events@), offs), local_day(now + off_now)),
                    events.len() as int,
                )
            },
        forall|i: int|
            0 <= i < events.len() && events@[i].start == now ==> events_view(r@).contains(
                #[trigger] events@[i]@,
            ),
        forall|j: int|
            0 <= j < r.len() ==> now - 3 * 86400 < #[trigger] r@[j].start < now + 3 * 86400,
{
    let ghost evs = events_view(events@);
    let off_now = local_offset(now);
    let today = day_and_second(now + off_now as i64).0;
    let mut days: Vec<i64> = Vec::new();
    let ghost mut offs: Seq<int> = Seq::empty();
    let mut i: usize = 0;
    while i < events.len()
        invariant
            i <= events.len(),
            days.len() == i,
            offs.len() == i,
            evs == events_view(events@),
            local_safe(now as int),
            -86400 < off_now < 86400,
            today == local_day(now + off_now),
            forall|j: int| 0 <= j < events.len() ==> local_safe(#[trigger] events@[j].start as int),
            forall|j: int|
                0 <= j < i ==> -86400 < #[trigger] offs[j] < 86400 && (events@[j].start == now
                    ==> offs[j] == off_now) && days@[j] == local_day(events@[j].start + offs[j]),
        decreases events.len() - i,
    {
        let start = events[i].start;
        let off: i32 = if start == now {
            off_now
        } else {
            local_offset(start)
        };
        let day = day_and_second(start + off as i64).0;
        days.push(day);
        proof {
            offs = offs.push(off as int);
        }
        i = i + 1;
    }
    let r = same_day_events(events, &days, today);
    proof {
        let n = events.len() as int;
        let sd = start_days(evs, offs);
        assert(days@.map_values(|d: i64| d as int) =~= sd) by {
            assert forall|j: int| 0 <= j < n implies days@[j] as int == #[trigger] sd[j] by {
                assert(evs[j] == events@[j]@);
            }
        }
        let keep = same_day_flags(sd, local_day(now + off_now));
        assert forall|i: int| 0 <= i < n && events@[i].start == now implies events_view(r@).contains(
            #[trigger] events@[i]@,
        ) by {
            assert(evs[i] == events@[i]@);
            assert(sd[i] == local_day(now + off_now));
            assert(keep[i]);
            lemma_kept_contains(evs, keep, n, i);
        }
        lemma_kept_from(evs, keep, n);
        assert forall|j: int| 0 <= j < r.len() implies now - 3 * 86400 < #[trigger] r@[j].start
            < now + 3 * 86400 by {
            assert(events_view(r@)[j] == r@[j]@);
            assert(kept_origin(evs, keep, n, events_view(r@)[j]));
            let i = choose|i: int| #![trigger evs[i]] 0 <= i < n && keep[i] && evs[i] == events_view(r@)[j];
            assert(evs[i] == events@[i]@);
            let a = events@[i].start + offs[i];
            let b = now + off_now;
            assert(local_day(a) == local_day(b));
            vstd::arithmetic::div_mod::lemma_fundamental_div_mod(a, 86400);
            vstd::arithmetic::div_mod::lemma_fundamental_div_mod(b, 86400);
            vstd::arithmetic::div_mod::lemma_mod_bound(a, 86400);
            vstd::arithmetic::div_mod::lemma_mod_bound(b, 86400);
        }
        assert(offs.len() == events.len());
        assert(local_day(now + off_now) == today);
    }
    r
}

/// `e` is one of the first `n` events, and `keep` keeps it.
pub open spec fn kept_origin(evs: Seq<EventView>, keep: Seq<bool>, n: int, e: EventView) -> bool {
    exists|i: int| #![trigger evs[i]] 0 <= i < n && keep[i] && evs[i] == e
}

/// Every kept event is an event that `keep` keeps.
proof fn lemma_kept_from(evs: Seq<EventView>, keep: Seq<bool>, n: int)
    requires
        0 <= n <= evs.len(),
        n <= keep.len(),
    ensures
        forall|j: int|
            0 <= j < kept_events(evs, keep, n).len() ==> kept_origin(
                evs,
                keep,
                n,
                #[trigger] kept_events(evs, keep, n)[j],
            ),
    decreases n,
{
    if n > 0 {
        lemma_kept_from(evs, keep, n - 1);
        let prev = kept_events(evs, keep, n - 1);
        let cur = kept_events(evs, keep, n);
        assert forall|j: int| 0 <= j < cur.len() implies kept_origin(evs, keep, n, #[trigger] cur[j]) by {
            if j < prev.len() {
                assert(cur[j] == prev[j]);
                assert(kept_origin(evs, keep, n - 1, prev[j]));
                let i = choose|i: int| #![trigger evs[i]] 0 <= i < n - 1 && keep[i] && evs[i] == prev[j];
                assert(0 <= i < n && keep[i] && evs[i] == cur[j]);
            } else {
                assert(keep[n - 1]);
                assert(cur[j] == evs[n - 1]);
                assert(0 <= n - 1 < n);
            }
        }
    }
}

/// An event kept by `keep` is among the kept events.
proof fn lemma_kept_contains(evs: Seq<EventView>, keep: Seq<bool>, n: int, i: int)
    requires
        0 <= i < n <= evs.len(),
        n <= keep.len(),
        keep[i],
    ensures
        kept_events(evs, keep, n).contains(evs[i]),
    decreases n,
{
    if i < n - 1 {
        lemma_kept_contains(evs, keep, n - 1, i);
        if keep[n - 1] {
            let prev = kept_events(evs, keep, n - 1);
            let k = choose|k: int| 0 <= k < prev.len() && prev[k] == evs[i];
            assert(prev.push(evs[n - 1])[k] == evs[i]);
        }
    } else {
        let prev = kept_events(evs, keep, n - 1);
        assert(prev.push(evs[n - 1])[prev.len() as int] == evs[i]);
    }
}

/// At least two digits, zero-padded (`{:02}`).
pub open spec fn two_digits(n: int) -> Seq<char> {
    if n < 10 {
        seq!['0'] + nat_decimal(n as nat)
    } else {
        nat_decimal(n as nat)
    }
}

fn push_two_digits(s: &mut String, n: u32)
    ensures
        final(s)@ == old(s)@ + two_digits(n as int),
{
    if n < 10 {
        push_char(s, '0');
    }
    crate::text::push_decimal(s, n as i64);
    assert(final(s)@ =~= old(s)@ + two_digits(n as int));
}

/// The text of a timed row: "HH:MM - <title>".
pub fn format_row(hour: u32, minute: u32, summary: &str) -> (r: String)
    ensures
        r@ == two_digits(hour as int) + seq![':'] + two_digits(minute as int) + " - "@ + summary@,
{
    let mut text = String::new();
    push_two_digits(&mut text, hour);
    push_char(&mut text, ':');
    push_two_digits(&mut text, minute);
    push_str(&mut text, " - ");
    push_str(&mut text, summary);
    assert(text@ =~= two_digits(hour as int) + seq![':'] + two_digits(minute as int) + " - "@
        + summary@);
    text
}

/// The text of a timed row for a start read on the local clock with offset `off`: its hour and
/// minute as `format_row` writes them, then the title.
pub open spec fn timed_row(start: int, off: int, summary: Seq<char>) -> Seq<char> {
    let sec = local_second_of_day(start + off);
    two_digits(sec / 3600) + seq![':'] + two_digits(sec % 3600 / 60) + " - "@ + summary
}

/// The text of a row: "(todo el dia) <title>" for a whole day, else `format_row` of the hour
/// and minute of the start on the local clock, read with the machine's offset at that instant
/// (less than a day either way; which offset depends on the machine's time zone).
pub fn row_text(event: &CalendarEvent) -> (r: String)
    requires
        event.all_day || local_safe(event.start as int),
    ensures
        event.all_day ==> r@ == "(todo el dia) "@ + event.summary@,
        !event.all_day ==> exists|off: int|
            -86400 < off < 86400 && r@ == #[trigger] timed_row(event.start as int, off, event.summary@),
{
    if event.all_day {
        let mut text = String::new();
        push_str(&mut text, "(todo el dia) ");
        push_str(&mut text, event.summary.as_str());
        assert(text@ =~= "(todo el dia) "@ + event.summary@);
        text
    } else {
        let off = local_offset(event.start);
        let sec = day_and_second(event.start + off as i64).1;
        let hour = (sec / 3600) as u32;
        let minute = (sec % 3600 / 60) as u32;
        let r = format_row(hour, minute, event.summary.as_str());
        assert(r@ == timed_row(event.start as int, off as int, event.summary@));
        r
    }
}

// ---------------------------------------------------------------------------
// Flyout layout
// ---------------------------------------------------------------------------

/// Height of a row.
pub const ROW_HEIGHT: i32 = 28;

/// Width of the flyout.
pub const WINDOW_WIDTH: i32 = 400;

/// Top of the first row (room for the close button only).
pub const ROWS_TOP: i32 = 26;

/// Size of the status dot.
pub const DOT_SIZE: i32 = 10;

/// Top of row `i`.
pub fn row_top(i: u32) -> (r: i64)
    ensures
        r == ROWS_TOP + i * ROW_HEIGHT,
{
    let k = i as i64;
    assert(0 <= k <= 4294967295);
    assert(k * 28 <= 4294967295 * 28) by (nonlinear_arith)
        requires
            0 <= k <= 4294967295,
    ;
    ROWS_TOP as i64 + k * ROW_HEIGHT as i64
}

/// The flyout's height for `n` rows: room for the "no activities" label when there are none,
/// else the rows plus a margin, between 120 and 700 pixels.
pub open spec fn spec_window_height(n: int) -> int {
    if n == 0 {
        ROWS_TOP + 60
    } else {
        let content = ROWS_TOP + n * ROW_HEIGHT + 10;
        if content < 120 {
            120
        } else if content > 700 {
            700
        } else {
            content
        }
    }
}

/// The flyout's height for `n` rows.
pub fn window_height(n: usize) -> (r: u32)
    ensures
        r == spec_window_height(n as int),
{
    if n == 0 {
        return (ROWS_TOP + 60) as u32;
    }
    if n > 100 {
        return 700;
    }
    let content = ROWS_TOP as i64 + n as i64 * ROW_HEIGHT as i64 + 10;
    if content < 120 {
        120
    } else if content > 700 {
        700
    } else {
        content as u32
    }
}

/// Where the flyout of size `width` x `height` goes for a click at `(anchor_x, anchor_y)`:
/// above and to the left of the point, at least 4 pixels from the screen's edges.
pub open spec fn spec_flyout_position(anchor_x: int, anchor_y: int, width: int, height: int) -> (
    int,
    int,
) {
    let x = anchor_x - width + 20;
    let y = anchor_y - height - 8;
    (if x < 4 {
        4
    } else {
        x
    }, if y < 4 {
        4
    } else {
        y
    })
}

/// Where the flyout goes for a click at `(anchor_x, anchor_y)`.
pub fn flyout_position(anchor_x: i32, anchor_y: i32, width: u32, height: u32) -> (r: (i32, i32))
    requires
        width <= i32::MAX,
        height <= i32::MAX,
        anchor_x <= i32::MAX - 20,
    ensures
        r.0 == spec_flyout_position(anchor_x as int, anchor_y as int, width as int, height as int).0,
        r.1 == spec_flyout_position(anchor_x as int, anchor_y as int, width as int, height as int).1,
{
    let x = anchor_x as i64 - width as i64 + 20;
    let y = anchor_y as i64 - height as i64 - 8;
    let x = if x < 4 {
        4
    } else {
        x
    };
    let y = if y < 4 {
        4
    } else {
        y
    };
    (x as i32, y as i32)
}

} // verus!

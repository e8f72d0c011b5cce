//! What the tray icon shows, decided from the last fetched events and the fetch history.
use vstd::prelude::*;

use crate::calendar::{clone_opt_string, events_view, opt_view, CalendarEvent, EventView};
use crate::meeting_clock::{
    find_next_meeting, spec_find_next_meeting, SemaphoreColor, Thresholds, LOOKAHEAD_SECS,
};
use crate::text::{int_decimal, push_decimal, push_str};
use crate::time::{valid_timestamp, whole_minutes};

verus! {

/// How long a failed fetch may go unshown while the last good data is recent enough.
pub const STALE_GRACE_SECS: i64 = 900;

/// What the icon shows.
#[derive(Debug, Clone, PartialEq, Eq)]
pub enum DisplayState {
    Unconfigured,
    Error { message: String },
    Neutral,
    Meeting {
        uid: String,
        start: i64,
        summary: String,
        minutes_remaining: i64,
        color: SemaphoreColor,
        blinking: bool,
    },
}

pub enum DisplayView {
    Unconfigured,
    Error { message: Seq<char> },
    Neutral,
    Meeting {
        uid: Seq<char>,
        start: i64,
        summary: Seq<char>,
        minutes_remaining: i64,
        color: SemaphoreColor,
        blinking: bool,
    },
}

impl View for DisplayState {
    type V = DisplayView;

    open spec fn view(&self) -> DisplayView {
        match self {
            DisplayState::Unconfigured => DisplayView::Unconfigured,
            DisplayState::Error { message } => DisplayView::Error { message: message@ },
            DisplayState::Neutral => DisplayView::Neutral,
            DisplayState::Meeting { uid, start, summary, minutes_remaining, color, blinking } =>
                DisplayView::Meeting {
                uid: uid@,
                start: *start,
                summary: summary@,
                minutes_remaining: *minutes_remaining,
                color: *color,
                blinking: *blinking,
            },
        }
    }
}

/// The last fetched events, the outcome of the fetches, and the meeting instance whose
/// blinking the user turned off.
pub struct AppState {
    pub cached_events: Vec<CalendarEvent>,
    pub last_fetch_success: Option<i64>,
    pub last_fetch_error: Option<String>,
    /// The silenced instance: event identifier and exact start.
    pub silenced: Option<(String, i64)>,
}

/// The silenced instance as characters.
pub open spec fn silenced_view(s: Option<(String, i64)>) -> Option<(Seq<char>, i64)> {
    match s {
        Some(p) => Some((p.0@, p.1)),
        None => None,
    }
}

/// The error text shown once the last good data is older than the grace period.
pub open spec fn stale_message(msg: Seq<char>, age_secs: int) -> Seq<char> {
    msg + " (sin actualizar desde hace "@ + int_decimal(whole_minutes(age_secs)) + " min)"@
}

/// The error the icon shows, if any: the message when a fetch failed and no fetch ever
/// succeeded; the message with the data's age when a fetch failed and the last good data is
/// more than 15 minutes old.
pub open spec fn shown_error(success: Option<i64>, error: Option<Seq<char>>, now: i64) -> Option<
    Seq<char>,
> {
    match (success, error) {
        (None, Some(msg)) => Some(msg),
        (Some(s), Some(msg)) => if now - s > STALE_GRACE_SECS {
            Some(stale_message(msg, now - s))
        } else {
            None
        },
        _ => None,
    }
}

/// What the icon shows: the error, when there is one to show (a failed fetch with no good
/// data, or with good data older than the grace period); otherwise the next meeting, if any
/// (blinking unless that very instance was silenced); otherwise the neutral state.
pub open spec fn spec_compute_display(
    cached: Seq<EventView>,
    success: Option<i64>,
    error: Option<Seq<char>>,
    silenced: Option<(Seq<char>, i64)>,
    now: i64,
    t: Thresholds,
) -> DisplayView {
    match shown_error(success, error, now) {
        Some(message) => DisplayView::Error { message },
        None => match spec_find_next_meeting(cached, now, t) {
            Some(m) => DisplayView::Meeting {
                uid: m.event.uid,
                start: m.event.start,
                summary: m.event.summary,
                minutes_remaining: m.minutes_remaining,
                color: m.color,
                blinking: m.blinking && silenced != Some((m.event.uid, m.event.start)),
            },
            None => DisplayView::Neutral,
        },
    }
}

impl Default for AppState {
    /// An empty state: no events, no fetch yet, nothing silenced.
    fn default() -> (r: AppState)
        ensures
            r.cached_events@.len() == 0,
            r.last_fetch_success is None,
            r.last_fetch_error is None,
            r.silenced is None,
    {
        AppState {
            cached_events: Vec::new(),
            last_fetch_success: None,
            last_fetch_error: None,
            silenced: None,
        }
    }
}

impl AppState {
    /// What `compute_display` shows for this state.
    pub open spec fn spec_display(&self, now: i64, t: Thresholds) -> DisplayView {
        spec_compute_display(
            events_view(self.cached_events@),
            self.last_fetch_success,
            opt_view(self.last_fetch_error),
            silenced_view(self.silenced),
            now,
            t,
        )
    }

    /// A successful fetch at `now`: its events replace the cached ones and the error is
    /// cleared.
    pub fn on_fetch_success(&mut self, events: Vec<CalendarEvent>, now: i64)
        ensures
            final(self).cached_events == events,
            final(self).last_fetch_success == Some(now),
            final(self).last_fetch_error is None,
            final(self).silenced == old(self).silenced,
    {
        self.cached_events = events;
        self.last_fetch_success = Some(now);
        self.last_fetch_error = None;
    }

    /// A failed fetch: the message is kept, the cached events too.
    pub fn on_fetch_error(&mut self, message: String)
        ensures
            final(self).last_fetch_error == Some(message),
            final(self).cached_events == old(self).cached_events,
            final(self).last_fetch_success == old(self).last_fetch_success,
            final(self).silenced == old(self).silenced,
    {
        self.last_fetch_error = Some(message);
    }

    /// The user turned off the blinking of the instance of `uid` that starts at `start`.
    pub fn silence(&mut self, uid: String, start: i64)
        ensures
            final(self).silenced == Some((uid, start)),
            final(self).cached_events == old(self).cached_events,
            final(self).last_fetch_success == old(self).last_fetch_success,
            final(self).last_fetch_error == old(self).last_fetch_error,
    {
        self.silenced = Some((uid, start));
    }

    /// What the icon shows at `now`.
    pub fn compute_display(&self, now: i64, thresholds: &Thresholds) -> (r: DisplayState)
        requires
            valid_timestamp(now as int),
            valid_timestamp(now + LOOKAHEAD_SECS),
        ensures
            r@ == self.spec_display(now, *thresholds),
    {
        match (self.last_fetch_success, &self.last_fetch_error) {
            (None, Some(msg)) => {
                return DisplayState::Error { message: msg.clone() };
            },
            (Some(success), Some(msg)) => {
                let age: i128 = now as i128 - success as i128;
                if age > STALE_GRACE_SECS as i128 {
                    let minutes: i64 = (age / 60) as i64;
                    let mut message = msg.clone();
                    push_str(&mut message, " (sin actualizar desde hace ");
                    push_decimal(&mut message, minutes);
                    push_str(&mut message, " min)");
                    assert(message@ =~= stale_message(msg@, now - success));
                    return DisplayState::Error { message };
                }
            },
            _ => {},
        }
        if let Some(next) = find_next_meeting(&self.cached_events, now, thresholds) {
            let is_silenced = match &self.silenced {
                Some(key) => key.0 == next.event.uid && key.1 == next.event.start,
                None => false,
            };
            let blinking = next.blinking && !is_silenced;
            return DisplayState::Meeting {
                uid: next.event.uid,
                start: next.event.start,
                summary: next.event.summary,
                minutes_remaining: next.minutes_remaining,
                color: next.color,
                blinking,
            };
        }
        DisplayState::Neutral
    }
}

/// Thresholds from the three configured minute values.
pub fn thresholds_from(green: u32, yellow: u32, blink: u32) -> (r: Thresholds)
    ensures
        r == (Thresholds { green_minutes: green, yellow_minutes: yellow, blink_minutes: blink }),
{
    Thresholds { green_minutes: green, yellow_minutes: yellow, blink_minutes: blink }
}

// ---------------------------------------------------------------------------
// Laws
// ---------------------------------------------------------------------------

/// Silencing acts on one instance only: after silencing `(uid, start)`, the next meeting shown
/// stops blinking if it is that instance, and blinks exactly as before the silence was set
/// (with nothing silenced) if it is any other instance, such as a later occurrence of the same
/// series.
pub proof fn lemma_silence_is_per_instance(
    cached: Seq<EventView>,
    success: Option<i64>,
    error: Option<Seq<char>>,
    uid: Seq<char>,
    start: i64,
    now: i64,
    t: Thresholds,
)
    ensures
        shown_error(success, error, now) is None ==> (spec_find_next_meeting(cached, now, t)
            matches Some(m) ==> {
            let shown = spec_compute_display(cached, success, error, Some((uid, start)), now, t);
            let plain = spec_compute_display(cached, success, error, None, now, t);
            &&& (m.event.uid == uid && m.event.start == start) ==> (shown
                matches DisplayView::Meeting { blinking, .. } && !blinking)
            &&& !(m.event.uid == uid && m.event.start == start) ==> shown == plain
        }),
{
}

/// Within the grace period after a good fetch, a failed fetch does not hide the last known
/// countdown: the display is the same whatever the fetch error.
pub proof fn lemma_error_keeps_meeting(
    cached: Seq<EventView>,
    success: i64,
    error: Option<Seq<char>>,
    silenced: Option<(Seq<char>, i64)>,
    now: i64,
    t: Thresholds,
)
    requires
        now - success <= STALE_GRACE_SECS,
    ensures
        spec_compute_display(cached, Some(success), error, silenced, now, t) == spec_compute_display(
            cached,
            Some(success),
            None,
            silenced,
            now,
            t,
        ),
{
}

/// Within the grace period after a good fetch, a failed fetch shows no error (the neutral
/// state when no meeting is known); after it, an error that says how old the data is, even
/// when a meeting is still cached.
pub proof fn lemma_stale_grace(
    cached: Seq<EventView>,
    success: i64,
    msg: Seq<char>,
    silenced: Option<(Seq<char>, i64)>,
    now: i64,
    t: Thresholds,
)
    ensures
        now - success <= STALE_GRACE_SECS && spec_find_next_meeting(cached, now, t) is None
            ==> spec_compute_display(
            cached,
            Some(success),
            Some(msg),
            silenced,
            now,
            t,
        ) == DisplayView::Neutral,
        now - success > STALE_GRACE_SECS ==> spec_compute_display(
            cached,
            Some(success),
            Some(msg),
            silenced,
            now,
            t,
        ) == (DisplayView::Error { message: stale_message(msg, now - success) }),
{
}

/// A successful fetch clears the error: right after it nothing but the next meeting or the
/// neutral state is shown.
pub proof fn lemma_success_clears_error(
    cached: Seq<EventView>,
    success: i64,
    silenced: Option<(Seq<char>, i64)>,
    now: i64,
    t: Thresholds,
)
    ensures
        !(spec_compute_display(cached, Some(success), None, silenced, now, t) is Error),
        !(spec_compute_display(cached, Some(success), None, silenced, now, t) is Unconfigured),
{
}

} // verus!

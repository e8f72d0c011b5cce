//! Calendar events as the rest of the app sees them, and the errors of reading a feed.
use vstd::prelude::*;

pub mod ical;
pub mod ics;

use crate::text::push_str;

verus! {

/// The user's own answer to an invitation.
#[derive(Debug, Clone, Copy, PartialEq, Eq, Structural)]
pub enum RsvpStatus {
    Accepted,
    NeedsAction,
    Declined,
}

/// One occurrence of a meeting. Times are Unix timestamps in seconds (UTC).
#[derive(Debug, Clone, PartialEq, Eq)]
pub struct CalendarEvent {
    pub uid: String,
    pub summary: String,
    pub start: i64,
    pub end: i64,
    pub all_day: bool,
    pub rsvp: RsvpStatus,
    /// Meet, Zoom or Teams link found in the description or location.
    pub meeting_url: Option<String>,
}

/// A `CalendarEvent` with its texts as character sequences.
pub struct EventView {
    pub uid: Seq<char>,
    pub summary: Seq<char>,
    pub start: i64,
    pub end: i64,
    pub all_day: bool,
    pub rsvp: RsvpStatus,
    pub meeting_url: Option<Seq<char>>,
}

/// The characters of an optional string.
pub open spec fn opt_view(s: Option<String>) -> Option<Seq<char>> {
    match s {
        Some(t) => Some(t@),
        None => None,
    }
}

impl View for CalendarEvent {
    type V = EventView;

    open spec fn view(&self) -> EventView {
        EventView {
            uid: self.uid@,
            summary: self.summary@,
            start: self.start,
            end: self.end,
            all_day: self.all_day,
            rsvp: self.rsvp,
            meeting_url: opt_view(self.meeting_url),
        }
    }
}

/// The views of a sequence of events.
pub open spec fn events_view(s: Seq<CalendarEvent>) -> Seq<EventView> {
    s.map_values(|e: CalendarEvent| e@)
}

/// A copy of an optional string.
pub fn clone_opt_string(s: &Option<String>) -> (r: Option<String>)
    ensures
        r == *s,
{
    match s {
        Some(t) => Some(t.clone()),
        None => None,
    }
}

impl CalendarEvent {
    /// A field-by-field copy.
    pub fn duplicate(&self) -> (r: CalendarEvent)
        ensures
            r == *self,
    {
        CalendarEvent {
            uid: self.uid.clone(),
            summary: self.summary.clone(),
            start: self.start,
            end: self.end,
            all_day: self.all_day,
            rsvp: self.rsvp,
            meeting_url: clone_opt_string(&self.meeting_url),
        }
    }
}

/// Why a feed could not be read.
#[derive(Debug, Clone, PartialEq, Eq)]
pub enum CalendarError {
    Fetch(String),
    Parse(String),
}

/// The text shown for an error.
pub open spec fn spec_error_message(e: CalendarError) -> Seq<char> {
    match e {
        CalendarError::Fetch(msg) => "no se pudo obtener el feed: "@ + msg@,
        CalendarError::Parse(msg) => "no se pudo interpretar el feed ICS: "@ + msg@,
    }
}

impl CalendarError {
    /// The text shown for this error.
    pub fn message(&self) -> (r: String)
        ensures
            r@ == spec_error_message(*self),
    {
        let mut r = String::new();
        match self {
            CalendarError::Fetch(msg) => {
                push_str(&mut r, "no se pudo obtener el feed: ");
                push_str(&mut r, msg.as_str());
            },
            CalendarError::Parse(msg) => {
                push_str(&mut r, "no se pudo interpretar el feed ICS: ");
                push_str(&mut r, msg.as_str());
            },
        }
        assert(r@ =~= spec_error_message(*self));
        r
    }
}


// ---------------------------------------------------------------------------
// Ordering by start
// ---------------------------------------------------------------------------

/// Events that start at `t`.
pub open spec fn starts_at(t: i64) -> spec_fn(EventView) -> bool {
    |e: EventView| e.start == t
}

/// Each event starts no later than the ones after it.
pub open spec fn sorted_by_start(s: Seq<EventView>) -> bool {
    forall|i: int, j: int| 0 <= i < j < s.len() ==> s[i].start <= s[j].start
}

/// `r` is `s` ordered by start, events that start together keeping their order (what a
/// stable sort by start returns).
pub open spec fn is_stable_sort_by_start(r: Seq<EventView>, s: Seq<EventView>) -> bool {
    &&& sorted_by_start(r)
    &&& forall|t: i64| #[trigger] r.filter(starts_at(t)) == s.filter(starts_at(t))
}

proof fn lemma_filter_none(s: Seq<EventView>, f: spec_fn(EventView) -> bool)
    requires
        forall|i: int| 0 <= i < s.len() ==> !f(#[trigger] s[i]),
    ensures
        s.filter(f) == Seq::<EventView>::empty(),
    decreases s.len(),
{
    reveal(Seq::filter);
    if s.len() > 0 {
        lemma_filter_none(s.drop_last(), f);
    }
}

proof fn lemma_filter_one(e: EventView, f: spec_fn(EventView) -> bool)
    ensures
        seq![e].filter(f) == (if f(e) {
            seq![e]
        } else {
            Seq::<EventView>::empty()
        }),
{
    reveal_with_fuel(Seq::filter, 2);
    assert(seq![e].drop_last() =~= Seq::<EventView>::empty());
    if f(e) {
        assert(Seq::<EventView>::empty().push(e) =~= seq![e]);
    }
}

/// Inserting an event after every event that starts no later than it, and before every event
/// that starts after it, keeps the order and appends it to its start's group.
proof fn lemma_insert_stable(r: Seq<EventView>, s: Seq<EventView>, p: int, e: EventView)
    requires
        is_stable_sort_by_start(r, s),
        0 <= p <= r.len(),
        forall|j: int| 0 <= j < p ==> (#[trigger] r[j]).start <= e.start,
        forall|j: int| p <= j < r.len() ==> (#[trigger] r[j]).start > e.start,
    ensures
        is_stable_sort_by_start(r.insert(p, e), s.push(e)),
{
    let r2 = r.insert(p, e);
    let a = r.take(p);
    let b = r.skip(p);
    assert(r2 =~= a + seq![e] + b);
    assert(r =~= a + b);
    assert(s.push(e) =~= s + seq![e]);
    assert forall|i: int, j: int| 0 <= i < j < r2.len() implies r2[i].start <= r2[j].start by {
        if j < p {
        } else if j == p {
        } else if i < p {
        } else if i == p {
        } else {
            assert(r2[i] == r[i - 1] && r2[j] == r[j - 1]);
        }
    }
    assert forall|t: i64| #[trigger] r2.filter(starts_at(t)) == s.push(e).filter(starts_at(t)) by {
        let f = starts_at(t);
        Seq::filter_distributes_over_add(a + seq![e], b, f);
        Seq::filter_distributes_over_add(a, seq![e], f);
        Seq::filter_distributes_over_add(a, b, f);
        Seq::filter_distributes_over_add(s, seq![e], f);
        lemma_filter_one(e, f);
        assert(r.filter(f) == s.filter(f));
        if t == e.start {
            assert forall|i: int| 0 <= i < b.len() implies !f(#[trigger] b[i]) by {
                assert(b[i] == r[p + i]);
            }
            lemma_filter_none(b, f);
            assert(a.filter(f) + Seq::<EventView>::empty() =~= a.filter(f));
            assert(r.filter(f) == a.filter(f));
        } else {
            assert(a.filter(f) + Seq::<EventView>::empty() =~= a.filter(f));
        }
    }
}

/// The events ordered by start; events that start together keep their order.
pub fn sort_by_start(v: &Vec<CalendarEvent>) -> (r: Vec<CalendarEvent>)
    ensures
        is_stable_sort_by_start(events_view(r@), events_view(v@)),
{
    let mut sorted: Vec<CalendarEvent> = Vec::new();
    let mut i: usize = 0;
    proof {
        assert(events_view(sorted@) =~= Seq::<EventView>::empty());
        assert(events_view(v@.take(0)) =~= Seq::<EventView>::empty());
    }
    while i < v.len()
        invariant
            i <= v.len(),
            is_stable_sort_by_start(events_view(sorted@), events_view(v@.take(i as int))),
        decreases v.len() - i,
    {
        let e = v[i].duplicate();
        let mut p = sorted.len();
        while p > 0 && sorted[p - 1].start > e.start
            invariant
                p <= sorted.len(),
                forall|j: int| p <= j < sorted.len() ==> (#[trigger] sorted@[j]).start > e.start,
            decreases p,
        {
            p = p - 1;
        }
        let ghost old_sorted = sorted@;
        proof {
            let rv = events_view(old_sorted);
            assert forall|j: int| 0 <= j < p implies (#[trigger] rv[j]).start <= e.start by {
                if p > 0 {
                    assert(rv[p - 1].start <= e.start);
                    assert(rv[j].start <= rv[p - 1].start);
                }
            }
            assert forall|j: int| p <= j < rv.len() implies (#[trigger] rv[j]).start > e.start by {
                assert(rv[j] == old_sorted[j]@);
            }
            lemma_insert_stable(rv, events_view(v@.take(i as int)), p as int, e@);
        }
        sorted.insert(p, e);
        proof {
            assert(events_view(sorted@) =~= events_view(old_sorted).insert(p as int, e@));
            assert(events_view(v@.take(i + 1)) =~= events_view(v@.take(i as int)).push(e@));
        }
        i = i + 1;
    }
    assert(v@.take(v.len() as int) =~= v@);
    sorted
}


/// A stable sort by start keeps exactly the events it was given: every property that holds
/// of each given event holds of each sorted one.
pub proof fn lemma_stable_sort_keeps_events(r: Seq<EventView>, s: Seq<EventView>, p: spec_fn(EventView) -> bool)
    requires
        is_stable_sort_by_start(r, s),
        forall|i: int| 0 <= i < s.len() ==> p(#[trigger] s[i]),
    ensures
        forall|j: int| 0 <= j < r.len() ==> p(#[trigger] r[j]),
{
    assert forall|j: int| 0 <= j < r.len() implies p(#[trigger] r[j]) by {
        let f = starts_at(r[j].start);
        r.lemma_filter_contains(f, j);
        assert(r.filter(f) == s.filter(f));
        s.lemma_filter_contains_rev(f, r[j]);
        let k = choose|k: int| 0 <= k < s.len() && s[k] == r[j];
        assert(p(s[k]));
    }
}

} // verus!

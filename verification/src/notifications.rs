//! Detects the phase changes of upcoming meetings (green, yellow, red, "now") that trigger a
//! short toast, grouping meetings that start together.
use vstd::prelude::*;

use crate::calendar::{events_view, CalendarEvent, EventView};
use crate::meeting_clock::{
    eligible, find_next_meetings, meetings_at, next_index, spec_find_next_meetings, NextMeeting,
    NextMeetingView, SemaphoreColor, Thresholds, LOOKAHEAD_SECS,
};
use crate::text::{int_decimal, push_decimal, push_str};
use crate::time::valid_timestamp;

verus! {

/// The phase of a meeting instance that a toast announces.
#[derive(Debug, Clone, Copy, PartialEq, Eq, Structural)]
pub enum Phase {
    Green,
    Yellow,
    Red,
    Started,
}

/// One toast: the meetings it names, their phase, and the minutes left.
#[derive(Debug, Clone, PartialEq, Eq)]
pub struct ToastEvent {
    pub summaries: Vec<String>,
    pub phase: Phase,
    pub minutes_remaining: i64,
}

pub struct ToastView {
    pub summaries: Seq<Seq<char>>,
    pub phase: Phase,
    pub minutes_remaining: i64,
}

/// The characters of each string.
pub open spec fn strings_view(s: Seq<String>) -> Seq<Seq<char>> {
    s.map_values(|x: String| x@)
}

impl View for ToastEvent {
    type V = ToastView;

    open spec fn view(&self) -> ToastView {
        ToastView {
            summaries: strings_view(self.summaries@),
            phase: self.phase,
            minutes_remaining: self.minutes_remaining,
        }
    }
}

/// The views of a sequence of toasts.
pub open spec fn toasts_view(s: Seq<ToastEvent>) -> Seq<ToastView> {
    s.map_values(|t: ToastEvent| t@)
}

/// An instance that started more than this long ago is forgotten.
pub const FORGET_STARTED_AFTER_SECS: i64 = 3600;

/// The last phase announced for one meeting instance (event identifier and start).
struct PhaseEntry {
    uid: String,
    start: i64,
    phase: Phase,
}

/// An instance key and the last phase announced for it.
pub type EntryView = (Seq<char>, i64, Phase);

/// The key of a meeting instance: its event identifier and start.
pub type InstanceKey = (Seq<char>, i64);

/// Remembers, per meeting instance, the last phase a toast announced.
pub struct NotificationTracker {
    phases: Vec<PhaseEntry>,
}

impl NotificationTracker {
    /// The announced phases, one entry per instance, in the order they were first announced.
    pub closed spec fn entries(&self) -> Seq<EntryView> {
        self.phases@.map_values(|e: PhaseEntry| (e.uid@, e.start, e.phase))
    }
}

impl Default for NotificationTracker {
    /// A tracker that has announced nothing.
    fn default() -> (r: NotificationTracker)
        ensures
            r.entries().len() == 0,
    {
        let r = NotificationTracker { phases: Vec::new() };
        assert(r.entries() =~= Seq::<EntryView>::empty());
        r
    }
}

// ---------------------------------------------------------------------------
// The phase table
// ---------------------------------------------------------------------------

/// The phase recorded for `k`.
pub open spec fn lookup(es: Seq<EntryView>, k: InstanceKey) -> Option<Phase>
    decreases es.len(),
{
    if es.len() == 0 {
        None
    } else if es[0].0 == k.0 && es[0].1 == k.1 {
        Some(es[0].2)
    } else {
        lookup(es.drop_first(), k)
    }
}

/// The table with `k` recorded at phase `p`: its entry updated in place, or a new entry last.
pub open spec fn set_phase(es: Seq<EntryView>, k: InstanceKey, p: Phase) -> Seq<EntryView>
    decreases es.len(),
{
    if es.len() == 0 {
        seq![(k.0, k.1, p)]
    } else if es[0].0 == k.0 && es[0].1 == k.1 {
        seq![(k.0, k.1, p)] + es.drop_first()
    } else {
        seq![es[0]] + set_phase(es.drop_first(), k, p)
    }
}

/// The key of a countdown's meeting instance.
pub open spec fn key_of(m: NextMeetingView) -> InstanceKey {
    (m.event.uid, m.event.start)
}

/// The phase announced for a traffic-light color.
pub open spec fn phase_of_color(c: SemaphoreColor) -> Phase {
    match c {
        SemaphoreColor::Green => Phase::Green,
        SemaphoreColor::Yellow => Phase::Yellow,
        SemaphoreColor::Red => Phase::Red,
    }
}

/// Records `phase` for the first `n` upcoming meetings in order; returns the table and the
/// titles of those whose recorded phase changed.
pub open spec fn mark_phase(es: Seq<EntryView>, next: Seq<NextMeetingView>, phase: Phase, n: int) -> (
    Seq<EntryView>,
    Seq<Seq<char>>,
)
    decreases n,
{
    if n <= 0 {
        (es, Seq::empty())
    } else {
        let prev = mark_phase(es, next, phase, n - 1);
        let k = key_of(next[n - 1]);
        if lookup(prev.0, k) == Some(phase) {
            prev
        } else {
            (set_phase(prev.0, k, phase), prev.1.push(next[n - 1].event.summary))
        }
    }
}

/// An instance announced but not yet as started, whose start has come.
pub open spec fn just_started(es: Seq<EntryView>, k: InstanceKey, now: i64) -> bool {
    lookup(es, k) matches Some(p) && p != Phase::Started && k.1 <= now
}

/// The titles of the first `n` events whose instance has just started, in order.
pub open spec fn started_titles(es: Seq<EntryView>, evs: Seq<EventView>, now: i64, n: int) -> Seq<
    Seq<char>,
>
    decreases n,
{
    if n <= 0 {
        Seq::empty()
    } else {
        let prev = started_titles(es, evs, now, n - 1);
        if just_started(es, (evs[n - 1].uid, evs[n - 1].start), now) {
            prev.push(evs[n - 1].summary)
        } else {
            prev
        }
    }
}

/// An entry after the "now" sweep: instances whose start has come are marked as started.
pub open spec fn sweep_entry(e: EntryView, now: i64) -> EntryView {
    if e.2 != Phase::Started && e.1 <= now {
        (e.0, e.1, Phase::Started)
    } else {
        e
    }
}

/// The table after the "now" sweep.
pub open spec fn sweep(es: Seq<EntryView>, now: i64) -> Seq<EntryView>
    decreases es.len(),
{
    if es.len() == 0 {
        es
    } else {
        seq![sweep_entry(es[0], now)] + sweep(es.drop_first(), now)
    }
}

/// Whether an entry is kept: everything but instances that started more than an hour ago.
pub open spec fn kept(e: EntryView, now: i64) -> bool {
    !(e.2 == Phase::Started && now - e.1 > FORGET_STARTED_AFTER_SECS)
}

/// The table without the forgotten entries.
pub open spec fn forget_old(es: Seq<EntryView>, now: i64) -> Seq<EntryView>
    decreases es.len(),
{
    if es.len() == 0 {
        es
    } else if kept(es[0], now) {
        seq![es[0]] + forget_old(es.drop_first(), now)
    } else {
        forget_old(es.drop_first(), now)
    }
}

/// One tick: the phase of the next meeting(s) is announced for every instance whose recorded
/// phase differs (one toast naming them, with the minutes left until the first); then every
/// announced instance whose start has come is marked as started (one "now" toast naming the
/// events of those instances, in event order); then instances started over an hour ago are
/// forgotten. Returns the new table and the toasts, in that order.
pub open spec fn spec_tick(es: Seq<EntryView>, evs: Seq<EventView>, now: i64, t: Thresholds) -> (
    Seq<EntryView>,
    Seq<ToastView>,
) {
    let next = spec_find_next_meetings(evs, now, t);
    let (es2, first_toasts) = if next.len() > 0 {
        let phase = phase_of_color(next[0].color);
        let marked = mark_phase(es, next, phase, next.len() as int);
        (
            marked.0,
            if marked.1.len() > 0 {
                seq![
                    ToastView {
                        summaries: marked.1,
                        phase,
                        minutes_remaining: next[0].minutes_remaining,
                    },
                ]
            } else {
                Seq::empty()
            },
        )
    } else {
        (es, Seq::empty())
    };
    let titles = started_titles(es2, evs, now, evs.len() as int);
    let toasts = if titles.len() > 0 {
        first_toasts.push(ToastView { summaries: titles, phase: Phase::Started, minutes_remaining: 0 })
    } else {
        first_toasts
    };
    (forget_old(sweep(es2, now), now), toasts)
}

// ---------------------------------------------------------------------------
// Executable table operations
// ---------------------------------------------------------------------------

/// The phase recorded for the instance `(uid, start)`.
fn lookup_exec(phases: &Vec<PhaseEntry>, uid: &String, start: i64) -> (r: Option<Phase>)
    ensures
        r == lookup(phases@.map_values(|e: PhaseEntry| (e.uid@, e.start, e.phase)), (uid@, start)),
{
    let ghost es = phases@.map_values(|e: PhaseEntry| (e.uid@, e.start, e.phase));
    let mut i: usize = 0;
    assert(es.skip(0) =~= es);
    while i < phases.len()
        invariant
            i <= phases.len(),
            es == phases@.map_values(|e: PhaseEntry| (e.uid@, e.start, e.phase)),
            lookup(es, (uid@, start)) == lookup(es.skip(i as int), (uid@, start)),
        decreases phases.len() - i,
    {
        let e = &phases[i];
        proof {
            let rest = es.skip(i as int);
            assert(rest[0] == es[i as int]);
            assert(rest.drop_first() =~= es.skip(i + 1));
        }
        if e.uid == *uid && e.start == start {
            return Some(e.phase);
        }
        i = i + 1;
    }
    None
}

/// Records phase `p` for the instance `(uid, start)`.
fn set_phase_exec(phases: &mut Vec<PhaseEntry>, uid: &String, start: i64, p: Phase)
    ensures
        final(phases)@.map_values(|e: PhaseEntry| (e.uid@, e.start, e.phase)) == set_phase(
            old(phases)@.map_values(|e: PhaseEntry| (e.uid@, e.start, e.phase)),
            (uid@, start),
            p,
        ),
{
    let ghost es = phases@.map_values(|e: PhaseEntry| (e.uid@, e.start, e.phase));
    let mut i: usize = 0;
    assert(es.take(0) + set_phase(es.skip(0), (uid@, start), p) =~= set_phase(es, (uid@, start), p))
        by {
        assert(es.skip(0) =~= es);
    }
    while i < phases.len()
        invariant
            i <= phases.len(),
            phases@ == old(phases)@,
            es == phases@.map_values(|e: PhaseEntry| (e.uid@, e.start, e.phase)),
            es.take(i as int) + set_phase(es.skip(i as int), (uid@, start), p) == set_phase(
                es,
                (uid@, start),
                p,
            ),
        decreases phases.len() - i,
    {
        let rest = Ghost(es.skip(i as int));
        proof {
            assert(rest@[0] == es[i as int]);
            assert(rest@.drop_first() =~= es.skip(i + 1));
        }
        if phases[i].uid == *uid && phases[i].start == start {
            let entry = PhaseEntry { uid: phases[i].uid.clone(), start, phase: p };
            phases.set(i, entry);
            proof {
                assert(phases@.map_values(|e: PhaseEntry| (e.uid@, e.start, e.phase)) =~= es.take(
                    i as int,
                ) + set_phase(rest@, (uid@, start), p));
            }
            return;
        }
        proof {
            assert(es.take(i + 1) + set_phase(es.skip(i + 1), (uid@, start), p) =~= es.take(i as int)
                + set_phase(rest@, (uid@, start), p));
        }
        i = i + 1;
    }
    proof {
        assert(es.skip(i as int) =~= Seq::<EntryView>::empty());
        assert(es.take(i as int) =~= es);
    }
    phases.push(PhaseEntry { uid: uid.clone(), start, phase: p });
    assert(phases@.map_values(|e: PhaseEntry| (e.uid@, e.start, e.phase)) =~= es + seq![
        (uid@, start, p),
    ]);
}

fn phase_of(c: SemaphoreColor) -> (r: Phase)
    ensures
        r == phase_of_color(c),
{
    match c {
        SemaphoreColor::Green => Phase::Green,
        SemaphoreColor::Yellow => Phase::Yellow,
        SemaphoreColor::Red => Phase::Red,
    }
}

impl NotificationTracker {
    /// Called on every tick with the last fetched events; returns the toasts to show now
    /// (usually none, sometimes one, at most two).
    pub fn tick(&mut self, events: &Vec<CalendarEvent>, now: i64, thresholds: &Thresholds) -> (r:
        Vec<ToastEvent>)
        requires
            valid_timestamp(now as int),
            valid_timestamp(now + LOOKAHEAD_SECS),
        ensures
            (final(self).entries(), toasts_view(r@)) == spec_tick(
                old(self).entries(),
                events_view(events@),
                now,
                *thresholds,
            ),
    {
        let ghost es0 = self.entries();
        let ghost evs = events_view(events@);
        let mut toasts: Vec<ToastEvent> = Vec::new();
        let next = find_next_meetings(events, now, thresholds);
        let ghost nextv = next@.map_values(|m: NextMeeting| m@);
        if next.len() > 0 {
            let phase = phase_of(next[0].color);
            assert(nextv[0] == next@[0]@);
            let mut changed: Vec<String> = Vec::new();
            let mut k: usize = 0;
            while k < next.len()
                invariant
                    k <= next.len(),
                    nextv == next@.map_values(|m: NextMeeting| m@),
                    phase == phase_of_color(nextv[0].color),
                    next.len() > 0,
                    (self.entries(), strings_view(changed@)) == mark_phase(es0, nextv, phase, k as int),
                decreases next.len() - k,
            {
                let m = &next[k];
                assert(nextv[k as int] == m@);
                let ghost before = (self.entries(), strings_view(changed@));
                if lookup_exec(&self.phases, &m.event.uid, m.event.start) != Some(phase) {
                    set_phase_exec(&mut self.phases, &m.event.uid, m.event.start, phase);
                    changed.push(m.event.summary.clone());
                    assert(strings_view(changed@) =~= before.1.push(m.event.summary@));
                }
                k = k + 1;
            }
            if changed.len() > 0 {
                let minutes = next[0].minutes_remaining;
                toasts.push(ToastEvent { summaries: changed, phase, minutes_remaining: minutes });
            }
        }
        let ghost es2 = self.entries();
        let ghost first_toasts = toasts_view(toasts@);
        // Titles of the events whose instance has just started.
        let mut titles: Vec<String> = Vec::new();
        let mut j: usize = 0;
        while j < events.len()
            invariant
                j <= events.len(),
                evs == events_view(events@),
                es2 == self.entries(),
                strings_view(titles@) == started_titles(es2, evs, now, j as int),
            decreases events.len() - j,
        {
            let e = &events[j];
            assert(evs[j as int] == e@);
            let started = match lookup_exec(&self.phases, &e.uid, e.start) {
                Some(p) => p != Phase::Started && e.start <= now,
                None => false,
            };
            if started {
                let ghost before = strings_view(titles@);
                titles.push(e.summary.clone());
                assert(strings_view(titles@) =~= before.push(e.summary@));
            }
            j = j + 1;
        }
        // The "now" sweep and the forgetting of old instances.
        let mut kept_phases: Vec<PhaseEntry> = Vec::new();
        let mut i: usize = 0;
        assert(es2.skip(0) =~= es2);
        assert(kept_phases@.map_values(|e: PhaseEntry| (e.uid@, e.start, e.phase)) + forget_old(
            sweep(es2.skip(0), now),
            now,
        ) =~= forget_old(sweep(es2, now), now));
        while i < self.phases.len()
            invariant
                i <= self.phases.len(),
                es2 == self.entries(),
                kept_phases@.map_values(|e: PhaseEntry| (e.uid@, e.start, e.phase)) + forget_old(
                    sweep(es2.skip(i as int), now),
                    now,
                ) == forget_old(sweep(es2, now), now),
            decreases self.phases.len() - i,
        {
            let e = &self.phases[i];
            let phase = if e.phase != Phase::Started && e.start <= now {
                Phase::Started
            } else {
                e.phase
            };
            let ghost rest = es2.skip(i as int);
            let ghost kv = kept_phases@.map_values(|e: PhaseEntry| (e.uid@, e.start, e.phase));
            proof {
                assert(rest[0] == es2[i as int]);
                assert(rest.drop_first() =~= es2.skip(i + 1));
                assert(sweep(rest, now) == seq![sweep_entry(rest[0], now)] + sweep(
                    rest.drop_first(),
                    now,
                ));
                let sw = sweep(rest, now);
                assert(sw[0] == sweep_entry(rest[0], now));
                assert(sw.drop_first() =~= sweep(rest.drop_first(), now));
            }
            let keep = !(phase == Phase::Started && now as i128 - e.start as i128
                > FORGET_STARTED_AFTER_SECS as i128);
            if keep {
                kept_phases.push(PhaseEntry { uid: e.uid.clone(), start: e.start, phase });
                assert(kept_phases@.map_values(|e: PhaseEntry| (e.uid@, e.start, e.phase)) =~= kv
                    + seq![sweep_entry(rest[0], now)]);
            }
            i = i + 1;
        }
        proof {
            assert(es2.skip(i as int) =~= Seq::<EntryView>::empty());
            assert(kept_phases@.map_values(|e: PhaseEntry| (e.uid@, e.start, e.phase)) + forget_old(
                sweep(Seq::<EntryView>::empty(), now),
                now,
            ) =~= kept_phases@.map_values(|e: PhaseEntry| (e.uid@, e.start, e.phase)));
        }
        self.phases = kept_phases;
        if titles.len() > 0 {
            toasts.push(ToastEvent { summaries: titles, phase: Phase::Started, minutes_remaining: 0 });
            assert(toasts_view(toasts@) =~= first_toasts.push(
                ToastView {
                    summaries: started_titles(es2, evs, now, evs.len() as int),
                    phase: Phase::Started,
                    minutes_remaining: 0,
                },
            ));
        }
        toasts
    }
}

// ---------------------------------------------------------------------------
// Law: a repeated tick is quiet
// ---------------------------------------------------------------------------

proof fn lemma_lookup_set_phase(es: Seq<EntryView>, k: InstanceKey, p: Phase, k2: InstanceKey)
    ensures
        lookup(set_phase(es, k, p), k2) == (if k2 == k {
            Some(p)
        } else {
            lookup(es, k2)
        }),
    decreases es.len(),
{
    let r = set_phase(es, k, p);
    let same = k2.0 == k.0 && k2.1 == k.1;
    assert(same <==> k2 == k);
    if es.len() == 0 {
        assert(r == seq![(k.0, k.1, p)]);
        assert(r.drop_first() =~= Seq::<EntryView>::empty());
        assert(r[0] == (k.0, k.1, p));
        if !same {
            assert(lookup(r, k2) == lookup(r.drop_first(), k2));
        }
    } else if es[0].0 == k.0 && es[0].1 == k.1 {
        assert(r == seq![(k.0, k.1, p)] + es.drop_first());
        assert(r[0] == (k.0, k.1, p));
        assert(r.drop_first() =~= es.drop_first());
    } else {
        lemma_lookup_set_phase(es.drop_first(), k, p, k2);
        assert(r == seq![es[0]] + set_phase(es.drop_first(), k, p));
        assert(r[0] == es[0]);
        assert(r.drop_first() =~= set_phase(es.drop_first(), k, p));
    }
}

proof fn lemma_mark_phase_records(es: Seq<EntryView>, next: Seq<NextMeetingView>, phase: Phase, n: int)
    requires
        0 <= n <= next.len(),
    ensures
        forall|j: int| 0 <= j < n ==> lookup(mark_phase(es, next, phase, n).0, #[trigger] key_of(next[j])) == Some(phase),
    decreases n,
{
    if n > 0 {
        lemma_mark_phase_records(es, next, phase, n - 1);
        let prev = mark_phase(es, next, phase, n - 1);
        let k = key_of(next[n - 1]);
        if lookup(prev.0, k) != Some(phase) {
            assert forall|j: int| 0 <= j < n implies lookup(mark_phase(es, next, phase, n).0, #[trigger] key_of(next[j])) == Some(phase) by {
                lemma_lookup_set_phase(prev.0, k, phase, key_of(next[j]));
            }
        }
    }
}

proof fn lemma_mark_phase_quiet(es: Seq<EntryView>, next: Seq<NextMeetingView>, phase: Phase, n: int)
    requires
        0 <= n <= next.len(),
        forall|j: int| 0 <= j < n ==> lookup(es, #[trigger] key_of(next[j])) == Some(phase),
    ensures
        mark_phase(es, next, phase, n) == (es, Seq::<Seq<char>>::empty()),
    decreases n,
{
    if n > 0 {
        lemma_mark_phase_quiet(es, next, phase, n - 1);
        assert(lookup(es, key_of(next[n - 1])) == Some(phase));
    }
}

proof fn lemma_lookup_sweep(es: Seq<EntryView>, now: i64, k: InstanceKey)
    ensures
        lookup(sweep(es, now), k) == (match lookup(es, k) {
            Some(p) => Some(sweep_entry((k.0, k.1, p), now).2),
            None => None,
        }),
    decreases es.len(),
{
    if es.len() > 0 {
        lemma_lookup_sweep(es.drop_first(), now, k);
        let r = seq![sweep_entry(es[0], now)] + sweep(es.drop_first(), now);
        assert(r.drop_first() =~= sweep(es.drop_first(), now));
    }
}

proof fn lemma_lookup_forget(es: Seq<EntryView>, now: i64, k: InstanceKey, p: Phase)
    requires
        lookup(es, k) == Some(p),
        kept((k.0, k.1, p), now),
    ensures
        lookup(forget_old(es, now), k) == Some(p),
    decreases es.len(),
{
    if es.len() > 0 {
        if es[0].0 == k.0 && es[0].1 == k.1 {
        } else {
            lemma_lookup_forget(es.drop_first(), now, k, p);
            if kept(es[0], now) {
                let r = seq![es[0]] + forget_old(es.drop_first(), now);
                assert(r.drop_first() =~= forget_old(es.drop_first(), now));
            }
        }
    }
}

/// No instance is announced but not yet marked as started although its start has come.
pub open spec fn no_pending(es: Seq<EntryView>, now: i64) -> bool {
    forall|i: int| 0 <= i < es.len() ==> !((#[trigger] es[i]).2 != Phase::Started && es[i].1 <= now)
}

proof fn lemma_sweep_no_pending(es: Seq<EntryView>, now: i64)
    ensures
        no_pending(sweep(es, now), now),
        sweep(es, now).len() == es.len(),
    decreases es.len(),
{
    if es.len() > 0 {
        lemma_sweep_no_pending(es.drop_first(), now);
        let r = seq![sweep_entry(es[0], now)] + sweep(es.drop_first(), now);
        assert forall|i: int| 0 <= i < r.len() implies !((#[trigger] r[i]).2 != Phase::Started && r[i].1 <= now) by {
            if i > 0 {
                assert(r[i] == sweep(es.drop_first(), now)[i - 1]);
            }
        }
    }
}

proof fn lemma_forget_no_pending(es: Seq<EntryView>, now: i64)
    requires
        no_pending(es, now),
    ensures
        no_pending(forget_old(es, now), now),
    decreases es.len(),
{
    if es.len() > 0 {
        let t = es.drop_first();
        assert forall|i: int| 0 <= i < t.len() implies !((#[trigger] t[i]).2 != Phase::Started && t[i].1 <= now) by {
            assert(t[i] == es[i + 1]);
        }
        lemma_forget_no_pending(t, now);
        if kept(es[0], now) {
            let r = seq![es[0]] + forget_old(t, now);
            assert forall|i: int| 0 <= i < r.len() implies !((#[trigger] r[i]).2 != Phase::Started && r[i].1 <= now) by {
                if i > 0 {
                    assert(r[i] == forget_old(t, now)[i - 1]);
                }
            }
        }
    }
}

proof fn lemma_no_pending_lookup(es: Seq<EntryView>, now: i64, k: InstanceKey)
    requires
        no_pending(es, now),
    ensures
        !just_started(es, k, now),
    decreases es.len(),
{
    if es.len() > 0 {
        let t = es.drop_first();
        assert forall|i: int| 0 <= i < t.len() implies !((#[trigger] t[i]).2 != Phase::Started && t[i].1 <= now) by {
            assert(t[i] == es[i + 1]);
        }
        lemma_no_pending_lookup(t, now, k);
        assert(!(es[0].2 != Phase::Started && es[0].1 <= now));
    }
}

proof fn lemma_no_titles(es: Seq<EntryView>, evs: Seq<EventView>, now: i64, n: int)
    requires
        no_pending(es, now),
    ensures
        started_titles(es, evs, now, n) == Seq::<Seq<char>>::empty(),
    decreases n,
{
    if n > 0 {
        lemma_no_titles(es, evs, now, n - 1);
        lemma_no_pending_lookup(es, now, (evs[n - 1].uid, evs[n - 1].start));
    }
}

proof fn lemma_meetings_at_future(evs: Seq<EventView>, now: i64, t: Thresholds, start: i64, n: int)
    requires
        0 <= n <= evs.len(),
    ensures
        forall|j: int| 0 <= j < meetings_at(evs, now, t, start, n).len() ==> (#[trigger] meetings_at(evs, now, t, start, n)[j]).event.start > now,
    decreases n,
{
    if n > 0 {
        lemma_meetings_at_future(evs, now, t, start, n - 1);
    }
}

/// Each phase is announced once: calling `tick` a second time with the same events at the
/// same instant shows no toast.
pub proof fn lemma_repeated_tick_is_quiet(es: Seq<EntryView>, evs: Seq<EventView>, now: i64, t: Thresholds)
    ensures
        spec_tick(spec_tick(es, evs, now, t).0, evs, now, t).1.len() == 0,
{
    let next = spec_find_next_meetings(evs, now, t);
    let es1 = spec_tick(es, evs, now, t).0;
    if next.len() > 0 {
        let phase = phase_of_color(next[0].color);
        let marked = mark_phase(es, next, phase, next.len() as int);
        lemma_mark_phase_records(es, next, phase, next.len() as int);
        lemma_sweep_no_pending(marked.0, now);
        lemma_forget_no_pending(sweep(marked.0, now), now);
        let i = next_index(evs, now, evs.len() as int).unwrap();
        lemma_meetings_at_future(evs, now, t, evs[i].start, evs.len() as int);
        assert forall|j: int| 0 <= j < next.len() implies lookup(es1, #[trigger] key_of(next[j])) == Some(phase) by {
            let k = key_of(next[j]);
            assert(next[j].event.start > now);
            lemma_lookup_sweep(marked.0, now, k);
            lemma_lookup_forget(sweep(marked.0, now), now, k, phase);
        }
        lemma_mark_phase_quiet(es1, next, phase, next.len() as int);
        lemma_no_titles(es1, evs, now, evs.len() as int);
    } else {
        lemma_sweep_no_pending(es, now);
        lemma_forget_no_pending(sweep(es, now), now);
        lemma_no_titles(es1, evs, now, evs.len() as int);
    }
}

/// A tick shows at most two toasts, none without titles: one for the next meeting's phase
/// (a color), first, and one for the meetings that just started, last.
pub proof fn lemma_at_most_two_toasts(es: Seq<EntryView>, evs: Seq<EventView>, now: i64, t: Thresholds)
    ensures
        spec_tick(es, evs, now, t).1.len() <= 2,
        forall|j: int|
            0 <= j < spec_tick(es, evs, now, t).1.len() ==> (#[trigger] spec_tick(
                es,
                evs,
                now,
                t,
            ).1[j]).summaries.len() > 0,
        forall|j: int|
            0 <= j < spec_tick(es, evs, now, t).1.len() - 1 ==> (#[trigger] spec_tick(
                es,
                evs,
                now,
                t,
            ).1[j]).phase != Phase::Started,
        spec_tick(es, evs, now, t).1.len() == 2 ==> spec_tick(es, evs, now, t).1[1].phase
            == Phase::Started,
{
    let toasts = spec_tick(es, evs, now, t).1;
    assert forall|j: int| 0 <= j < toasts.len() implies (#[trigger] toasts[j]).summaries.len() > 0 by {}
}

/// Title `title` belongs to one of the first `n` events whose instance has just started.
pub open spec fn started_origin(es: Seq<EntryView>, evs: Seq<EventView>, now: i64, n: int, title: Seq<char>) -> bool {
    exists|i: int|
        #![trigger evs[i]]
        0 <= i < n && just_started(es, (evs[i].uid, evs[i].start), now) && evs[i].summary == title
}

/// Each title of the started toast belongs to an event whose instance has just started.
proof fn lemma_started_titles_origin(es: Seq<EntryView>, evs: Seq<EventView>, now: i64, n: int)
    requires
        0 <= n <= evs.len(),
    ensures
        forall|m: int|
            0 <= m < started_titles(es, evs, now, n).len() ==> started_origin(
                es,
                evs,
                now,
                n,
                #[trigger] started_titles(es, evs, now, n)[m],
            ),
    decreases n,
{
    if n > 0 {
        lemma_started_titles_origin(es, evs, now, n - 1);
        let prev = started_titles(es, evs, now, n - 1);
        let cur = started_titles(es, evs, now, n);
        assert forall|m: int| 0 <= m < cur.len() implies started_origin(es, evs, now, n, #[trigger] cur[m]) by {
            if m < prev.len() {
                assert(cur[m] == prev[m]);
                assert(started_origin(es, evs, now, n - 1, prev[m]));
                let i = choose|i: int|
                    #![trigger evs[i]]
                    0 <= i < n - 1 && just_started(es, (evs[i].uid, evs[i].start), now)
                        && evs[i].summary == prev[m];
                assert(0 <= i < n && just_started(es, (evs[i].uid, evs[i].start), now)
                    && evs[i].summary == cur[m]);
            } else {
                assert(just_started(es, (evs[n - 1].uid, evs[n - 1].start), now));
                assert(cur[m] == evs[n - 1].summary);
                assert(0 <= n - 1 < n);
            }
        }
    }
}

/// Marking the phase of the upcoming meetings leaves every other instance as it was.
proof fn lemma_lookup_mark_other(es: Seq<EntryView>, next: Seq<NextMeetingView>, phase: Phase, n: int, k: InstanceKey)
    requires
        0 <= n <= next.len(),
        forall|j: int| 0 <= j < n ==> #[trigger] key_of(next[j]) != k,
    ensures
        lookup(mark_phase(es, next, phase, n).0, k) == lookup(es, k),
    decreases n,
{
    if n > 0 {
        lemma_lookup_mark_other(es, next, phase, n - 1, k);
        let prev = mark_phase(es, next, phase, n - 1);
        assert(key_of(next[n - 1]) != k);
        lemma_lookup_set_phase(prev.0, key_of(next[n - 1]), phase, k);
    }
}

/// A meeting is announced as started only once, and only after a color phase was announced
/// for it: across two ticks (the second not earlier than the first), every title of the second
/// tick's "now" toast belongs to an event whose instance started after the first tick and up
/// to the second, and for which the first tick had recorded a traffic-light phase.
pub proof fn lemma_started_announced_once(
    es: Seq<EntryView>,
    evs1: Seq<EventView>,
    now1: i64,
    t1: Thresholds,
    evs2: Seq<EventView>,
    now2: i64,
    t2: Thresholds,
)
    requires
        now1 <= now2,
    ensures
        ({
            let es1 = spec_tick(es, evs1, now1, t1).0;
            let toasts = spec_tick(es1, evs2, now2, t2).1;
            forall|j: int, m: int|
                #![trigger toasts[j].summaries[m]]
                0 <= j < toasts.len() && toasts[j].phase == Phase::Started && 0 <= m
                    < toasts[j].summaries.len() ==> exists|i: int|
                    #![trigger evs2[i]]
                    0 <= i < evs2.len() && evs2[i].summary == toasts[j].summaries[m]
                        && now1 < evs2[i].start <= now2 && (lookup(
                        es1,
                        (evs2[i].uid, evs2[i].start),
                    ) matches Some(p) && p != Phase::Started)
        }),
{
    let es1 = spec_tick(es, evs1, now1, t1).0;
    // After the first tick nothing whose start has come is still waiting to be announced.
    let next1 = spec_find_next_meetings(evs1, now1, t1);
    let m1 = if next1.len() > 0 {
        mark_phase(es, next1, phase_of_color(next1[0].color), next1.len() as int).0
    } else {
        es
    };
    lemma_sweep_no_pending(m1, now1);
    lemma_forget_no_pending(sweep(m1, now1), now1);
    assert(es1 == forget_old(sweep(m1, now1), now1));
    // The second tick.
    let next2 = spec_find_next_meetings(evs2, now2, t2);
    let es2 = if next2.len() > 0 {
        mark_phase(es1, next2, phase_of_color(next2[0].color), next2.len() as int).0
    } else {
        es1
    };
    if next2.len() > 0 {
        let i0 = next_index(evs2, now2, evs2.len() as int).unwrap();
        lemma_meetings_at_future(evs2, now2, t2, evs2[i0].start, evs2.len() as int);
    }
    let titles = started_titles(es2, evs2, now2, evs2.len() as int);
    lemma_started_titles_origin(es2, evs2, now2, evs2.len() as int);
    let toasts = spec_tick(es1, evs2, now2, t2).1;
    assert forall|j: int, m: int|
        #![trigger toasts[j].summaries[m]]
        0 <= j < toasts.len() && toasts[j].phase == Phase::Started && 0 <= m
            < toasts[j].summaries.len() implies exists|i: int|
            #![trigger evs2[i]]
            0 <= i < evs2.len() && evs2[i].summary == toasts[j].summaries[m] && now1
                < evs2[i].start <= now2 && (lookup(es1, (evs2[i].uid, evs2[i].start)) matches Some(
                p,
            ) && p != Phase::Started) by {
        assert(toasts[j].summaries == titles);
        assert(started_origin(es2, evs2, now2, evs2.len() as int, titles[m]));
        let i = choose|i: int|
            #![trigger evs2[i]]
            0 <= i < evs2.len() && just_started(es2, (evs2[i].uid, evs2[i].start), now2)
                && evs2[i].summary == titles[m];
        assert(titles[m] == toasts[j].summaries[m]);
        let k = (evs2[i].uid, evs2[i].start);
        if next2.len() > 0 {
            assert forall|jj: int| 0 <= jj < next2.len() implies #[trigger] key_of(next2[jj]) != k by {
                assert(next2[jj].event.start > now2);
            }
            lemma_lookup_mark_other(es1, next2, phase_of_color(next2[0].color), next2.len() as int, k);
        }
        assert(lookup(es1, k) == lookup(es2, k));
        if evs2[i].start <= now1 {
            lemma_no_pending_lookup(es1, now1, k);
            assert(false);
        }
    }
}

// ---------------------------------------------------------------------------
// Toast text
// ---------------------------------------------------------------------------

/// The titles joined by `sep`.
pub open spec fn join(s: Seq<Seq<char>>, sep: Seq<char>) -> Seq<char>
    decreases s.len(),
{
    if s.len() == 0 {
        Seq::empty()
    } else if s.len() == 1 {
        s[0]
    } else {
        join(s.drop_last(), sep) + sep + s.last()
    }
}

/// The toast text: "Reunión Daily en 10 min" or "Reuniones A, B ahora".
pub open spec fn spec_format_toast(t: ToastView) -> Seq<char> {
    let label = if t.summaries.len() == 1 {
        "Reunión"@
    } else {
        "Reuniones"@
    };
    let joined = join(t.summaries, ", "@);
    match t.phase {
        Phase::Started => label + " "@ + joined + " ahora"@,
        _ => label + " "@ + joined + " en "@ + int_decimal(t.minutes_remaining as int) + " min"@,
    }
}

/// The toast text, e.g. "Reunión Daily en 10 min" or "Reuniones A, B ahora".
pub fn format_toast(toast: &ToastEvent) -> (r: String)
    ensures
        r@ == spec_format_toast(toast@),
{
    let mut text = String::new();
    if toast.summaries.len() == 1 {
        push_str(&mut text, "Reunión");
    } else {
        push_str(&mut text, "Reuniones");
    }
    push_str(&mut text, " ");
    let ghost label = text@;
    let ghost sv = strings_view(toast.summaries@);
    let mut i: usize = 0;
    while i < toast.summaries.len()
        invariant
            i <= toast.summaries.len(),
            sv == strings_view(toast.summaries@),
            text@ == label + join(sv.take(i as int), ", "@),
        decreases toast.summaries.len() - i,
    {
        if i > 0 {
            push_str(&mut text, ", ");
        }
        push_str(&mut text, toast.summaries[i].as_str());
        proof {
            assert(sv.take(i + 1).drop_last() =~= sv.take(i as int));
            assert(sv.take(i + 1).last() == toast.summaries@[i as int]@);
            if i == 0 {
                assert(sv.take(0) =~= Seq::<Seq<char>>::empty());
            }
        }
        assert(text@ =~= label + join(sv.take(i + 1), ", "@));
        i = i + 1;
    }
    assert(sv.take(i as int) =~= sv);
    match toast.phase {
        Phase::Started => {
            push_str(&mut text, " ahora");
        },
        _ => {
            push_str(&mut text, " en ");
            push_decimal(&mut text, toast.minutes_remaining);
            push_str(&mut text, " min");
        },
    }
    assert(text@ =~= spec_format_toast(toast@));
    text
}

} // verus!

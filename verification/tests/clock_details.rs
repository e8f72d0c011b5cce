use calendar_tray::agenda::{
    classify_row, flyout_position, row_text, row_top, window_height, RowStatus,
};
use calendar_tray::app_state::{thresholds_from, AppState, DisplayState};
use calendar_tray::calendar::{CalendarEvent, RsvpStatus};
use calendar_tray::meeting_clock::{classify_color, find_next_meeting, find_next_meetings, SemaphoreColor};
use calendar_tray::notifications::{format_toast, NotificationTracker, Phase, ToastEvent};
use chrono::{Local, TimeZone, Timelike, Utc};

fn now() -> i64 {
    Utc.with_ymd_and_hms(2026, 1, 1, 12, 0, 0).unwrap().timestamp()
}

fn ev(uid: &str, start: i64, all_day: bool) -> CalendarEvent {
    CalendarEvent {
        uid: uid.into(),
        summary: format!("S-{uid}"),
        start,
        end: start + 1800,
        all_day,
        rsvp: RsvpStatus::Accepted,
        meeting_url: None,
    }
}

#[test]
fn ties_pick_the_first_listed_and_group_the_rest() {
    let n = now();
    let events = vec![ev("late", n + 3600, false), ev("a", n + 600, false), ev("b", n + 600, false)];
    let t = thresholds_from(15, 5, 1);
    assert_eq!(find_next_meeting(&events, n, &t).unwrap().event.uid, "a");
    let group = find_next_meetings(&events, n, &t);
    let uids: Vec<&str> = group.iter().map(|m| m.event.uid.as_str()).collect();
    assert_eq!(uids, vec!["a", "b"]);
    assert!(find_next_meetings(&vec![ev("past", n - 60, false)], n, &t).is_empty());
}

#[test]
fn minutes_are_whole_minutes_rounded_down() {
    let n = now();
    let t = thresholds_from(15, 5, 1);
    let next = find_next_meeting(&vec![ev("m", n + 119, false)], n, &t).unwrap();
    assert_eq!(next.minutes_remaining, 1);
    assert!(!next.blinking);
    let next = find_next_meeting(&vec![ev("m", n + 120, false)], n, &t).unwrap();
    assert_eq!(next.minutes_remaining, 2);
    assert!(!next.blinking);
    // Blinking and colors go by the exact seconds left.
    assert!(find_next_meeting(&vec![ev("m", n + 60, false)], n, &t).unwrap().blinking);
    assert!(!find_next_meeting(&vec![ev("m", n + 90, false)], n, &t).unwrap().blinking);
    let m = find_next_meeting(&vec![ev("m", n + 15 * 60 + 30, false)], n, &t).unwrap();
    assert_eq!(m.minutes_remaining, 15);
    assert_eq!(m.color, SemaphoreColor::Green);
    assert_eq!(find_next_meeting(&vec![ev("m", n + 15 * 60, false)], n, &t).unwrap().color, SemaphoreColor::Yellow);
    assert_eq!(find_next_meeting(&vec![ev("m", n + 300, false)], n, &t).unwrap().color, SemaphoreColor::Yellow);
    assert_eq!(find_next_meeting(&vec![ev("m", n + 299, false)], n, &t).unwrap().color, SemaphoreColor::Red);
    // The window is open at both ends: exactly 24 hours ahead is out.
    assert!(find_next_meeting(&vec![ev("m", n + 86400, false)], n, &t).is_none());
    assert!(find_next_meeting(&vec![ev("m", n, false)], n, &t).is_none());
}

#[test]
fn colors_follow_thresholds_and_never_get_greener_as_time_passes() {
    let t = thresholds_from(15, 5, 1);
    assert_eq!(classify_color(16, &t), SemaphoreColor::Green);
    assert_eq!(classify_color(15, &t), SemaphoreColor::Yellow);
    assert_eq!(classify_color(6, &t), SemaphoreColor::Yellow);
    assert_eq!(classify_color(5, &t), SemaphoreColor::Yellow);
    assert_eq!(classify_color(4, &t), SemaphoreColor::Red);
    assert_eq!(classify_color(-3, &t), SemaphoreColor::Red);
    let rank = |c: SemaphoreColor| match c {
        SemaphoreColor::Green => 0,
        SemaphoreColor::Yellow => 1,
        SemaphoreColor::Red => 2,
    };
    for m in -5..40 {
        assert!(rank(classify_color(m, &t)) >= rank(classify_color(m + 1, &t)));
    }
}

#[test]
fn stale_error_message_says_how_old_the_data_is() {
    let mut state = AppState::default();
    let t0 = now();
    state.on_fetch_success(vec![], t0);
    state.on_fetch_error("timeout".into());
    assert_eq!(state.compute_display(t0 + 900, &thresholds_from(15, 5, 1)), DisplayState::Neutral);
    assert_eq!(
        state.compute_display(t0 + 16 * 60 + 30, &thresholds_from(15, 5, 1)),
        DisplayState::Error { message: "timeout (sin actualizar desde hace 16 min)".into() }
    );
    state.on_fetch_success(vec![], t0 + 1000);
    assert_eq!(state.compute_display(t0 + 5000, &thresholds_from(15, 5, 1)), DisplayState::Neutral);
}

#[test]
fn silencing_another_instance_keeps_the_blinking() {
    let n = now();
    let mut state = AppState::default();
    state.on_fetch_success(vec![ev("m", n + 30, false)], n);
    state.silence("m".into(), n + 30 + 7 * 86400);
    match state.compute_display(n, &thresholds_from(15, 5, 1)) {
        DisplayState::Meeting { blinking, minutes_remaining, summary, .. } => {
            assert!(blinking);
            assert_eq!(minutes_remaining, 0);
            assert_eq!(summary, "S-m");
        }
        other => panic!("unexpected {other:?}"),
    }
}

#[test]
fn repeated_tick_is_quiet_and_start_is_announced_once() {
    let n = now();
    let mut tracker = NotificationTracker::default();
    let t = thresholds_from(15, 5, 1);
    let events = vec![ev("a", n + 120, false), ev("b", n + 120, false)];
    let first = tracker.tick(&events, n, &t);
    assert_eq!(first.len(), 1);
    assert_eq!(first[0].phase, Phase::Red);
    assert_eq!(first[0].summaries, vec!["S-a".to_string(), "S-b".to_string()]);
    assert_eq!(first[0].minutes_remaining, 2);
    assert!(tracker.tick(&events, n, &t).is_empty());
    let started = tracker.tick(&events, n + 120, &t);
    assert_eq!(started.len(), 1);
    assert_eq!(started[0].phase, Phase::Started);
    assert_eq!(started[0].minutes_remaining, 0);
    assert!(tracker.tick(&events, n + 180, &t).is_empty());
    assert!(tracker.tick(&events, n + 5 * 3600, &t).is_empty());
}

#[test]
fn toast_text_for_negative_and_large_minutes() {
    let t = ToastEvent { summaries: vec!["X".into()], phase: Phase::Red, minutes_remaining: -3 };
    assert_eq!(format_toast(&t), "Reunión X en -3 min");
    let t = ToastEvent {
        summaries: vec!["A".into(), "B".into(), "C".into()],
        phase: Phase::Green,
        minutes_remaining: 1234,
    };
    assert_eq!(format_toast(&t), "Reuniones A, B, C en 1234 min");
    let t = ToastEvent { summaries: vec![], phase: Phase::Started, minutes_remaining: 0 };
    assert_eq!(format_toast(&t), "Reuniones  ahora");
}

#[test]
fn agenda_rows_and_layout() {
    let n = now();
    assert!(matches!(classify_row(&ev("x", n - 1800, false), n, 15), RowStatus::Past));
    assert!(matches!(classify_row(&ev("x", n, false), n, 15), RowStatus::Ongoing));
    assert!(matches!(classify_row(&ev("x", n + 15 * 60 + 59, false), n, 15), RowStatus::Near));
    assert!(matches!(classify_row(&ev("x", n + 16 * 60, false), n, 15), RowStatus::Future));
    assert_eq!(RowStatus::Ongoing.color(), [201, 42, 42]);
    assert_eq!(RowStatus::AllDay.color(), [90, 110, 200]);
    assert_eq!(row_top(0), 26);
    assert_eq!(row_top(3), 26 + 3 * 28);
    assert_eq!(window_height(0), 86);
    assert_eq!(window_height(1), 120);
    assert_eq!(window_height(10), 26 + 280 + 10);
    assert_eq!(window_height(50), 700);
    assert_eq!(flyout_position(1000, 900, 400, 200), (620, 692));
    assert_eq!(flyout_position(10, 10, 400, 200), (4, 4));
}

#[test]
fn row_text_shows_local_time_or_whole_day() {
    let n = now();
    assert_eq!(row_text(&ev("d", n, true)), "(todo el dia) S-d");
    let local = Utc.timestamp_opt(n, 0).unwrap().with_timezone(&Local);
    let expected = format!("{:02}:{:02} - S-t", local.hour(), local.minute());
    assert_eq!(row_text(&ev("t", n, false)), expected);
}

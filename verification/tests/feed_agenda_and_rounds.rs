use calendar_tray::agenda::{events_for_today, format_row, row_text, same_day_events};
use calendar_tray::app_state::{thresholds_from, AppState, DisplayState};
use calendar_tray::calendar::ics::{parse_and_filter_events, percent_decode};
use calendar_tray::config::{apply_settings_form, AppConfig};
use calendar_tray::notifications::{NotificationTracker, Phase};
use calendar_tray::calendar::{CalendarEvent, RsvpStatus};
use chrono::{TimeZone, Utc};

fn ts(y: i32, mo: u32, d: u32, h: u32, mi: u32) -> i64 {
    Utc.with_ymd_and_hms(y, mo, d, h, mi, 0).unwrap().timestamp()
}

fn calendar(events: &str) -> String {
    format!("BEGIN:VCALENDAR\r\nVERSION:2.0\r\nPRODID:-//Test//Test//EN\r\n{events}END:VCALENDAR\r\n")
}

fn ev(uid: &str, start: i64) -> CalendarEvent {
    CalendarEvent {
        uid: uid.into(),
        summary: format!("S-{uid}"),
        start,
        end: start + 1800,
        all_day: false,
        rsvp: RsvpStatus::Accepted,
        meeting_url: None,
    }
}

#[test]
fn series_occurrence_at_the_window_end_is_dropped() {
    let text = calendar(
        "BEGIN:VEVENT\r\nUID:daily@test\r\nDTSTART:20260101T000000Z\r\n\
RRULE:FREQ=DAILY;COUNT=5\r\nEND:VEVENT\r\n",
    );
    let from = ts(2026, 1, 1, 0, 0);
    let to = ts(2026, 1, 3, 0, 0);
    let events = parse_and_filter_events(&text, None, from, to).unwrap();
    let starts: Vec<i64> = events.iter().map(|e| e.start).collect();
    assert_eq!(starts, vec![from, ts(2026, 1, 2, 0, 0)]);
}

#[test]
fn owner_email_is_matched_whatever_its_case() {
    let text = calendar(
        "BEGIN:VEVENT\r\nUID:declined@test\r\nDTSTART:20260101T100000Z\r\n\
ATTENDEE;PARTSTAT=DECLINED:mailto:me@wom.cl\r\nEND:VEVENT\r\n\
BEGIN:VEVENT\r\nUID:series@test\r\nDTSTART:20260101T110000Z\r\nRRULE:FREQ=DAILY;COUNT=2\r\n\
ATTENDEE;PARTSTAT=DECLINED:mailto:Me@Wom.cl\r\nEND:VEVENT\r\n\
BEGIN:VEVENT\r\nUID:accepted@test\r\nDTSTART:20260101T120000Z\r\n\
ATTENDEE;PARTSTAT=ACCEPTED:mailto:ME@WOM.CL\r\nEND:VEVENT\r\n",
    );
    let events = parse_and_filter_events(
        &text,
        Some("Me@WOM.cl"),
        ts(2026, 1, 1, 0, 0),
        ts(2026, 1, 5, 0, 0),
    )
    .unwrap();
    assert_eq!(events.len(), 1);
    assert_eq!(events[0].uid, "accepted@test");
    assert_eq!(events[0].rsvp, RsvpStatus::Accepted);
}

#[test]
fn a_stale_feed_shows_the_error_even_with_a_cached_meeting() {
    let t0 = ts(2026, 1, 1, 12, 0);
    let t = thresholds_from(15, 5, 1);
    let mut state = AppState::default();
    state.on_fetch_success(vec![ev("m1", t0 + 3600)], t0);
    state.on_fetch_error("timeout".into());
    match state.compute_display(t0 + 10 * 60, &t) {
        DisplayState::Meeting { uid, .. } => assert_eq!(uid, "m1"),
        other => panic!("unexpected {other:?}"),
    }
    assert_eq!(
        state.compute_display(t0 + 16 * 60, &t),
        DisplayState::Error { message: "timeout (sin actualizar desde hace 16 min)".into() }
    );
}

#[test]
fn same_day_events_keeps_the_matching_dates_in_order() {
    let events = vec![ev("a", 1), ev("b", 2), ev("c", 3)];
    let days = vec![20454, 20455, 20454];
    let kept = same_day_events(&events, &days, 20454);
    let uids: Vec<&str> = kept.iter().map(|e| e.uid.as_str()).collect();
    assert_eq!(uids, vec!["a", "c"]);
    assert!(same_day_events(&events, &days, 20453).is_empty());
}

#[test]
fn an_event_starting_now_is_listed_today() {
    let now = ts(2026, 1, 1, 15, 0);
    let today = events_for_today(&vec![ev("now", now), ev("far", now + 40 * 86400)], now);
    let uids: Vec<&str> = today.iter().map(|e| e.uid.as_str()).collect();
    assert_eq!(uids, vec!["now"]);
}

#[test]
fn row_format_pads_hour_and_minute() {
    assert_eq!(format_row(9, 5, "Daily"), "09:05 - Daily");
    assert_eq!(format_row(23, 59, "Cierre"), "23:59 - Cierre");
    assert_eq!(format_row(123, 0, "X"), "123:00 - X");
    let mut e = ev("d", 0);
    e.all_day = true;
    assert_eq!(row_text(&e), "(todo el dia) S-d");
}

#[test]
fn unedited_settings_form_saves_the_same_settings() {
    let mut c = AppConfig::default();
    c.ics_feed_url = "  https://x/ical/me%40wom.cl/p/basic.ics ".into();
    c.green_threshold_minutes = 4294967295;
    c.yellow_threshold_minutes = 0;
    let saved = apply_settings_form(
        &c,
        &c.ics_feed_url,
        &c.green_threshold_minutes.to_string(),
        &c.yellow_threshold_minutes.to_string(),
        &c.blink_threshold_minutes.to_string(),
        &c.refresh_interval_minutes.to_string(),
    )
    .unwrap();
    let mut expected = c.clone();
    expected.ics_feed_url = c.ics_feed_url.trim().to_string();
    assert_eq!(saved, expected);
}

#[test]
fn percent_escaped_text_decodes_back() {
    for s in ["me@wom.cl", "café 100%", "日本", ""] {
        let enc: String = s.bytes().map(|b| format!("%{:02X}", b)).collect();
        assert_eq!(percent_decode(&enc).as_deref(), Some(s));
    }
    assert_eq!(percent_decode("niño").as_deref(), Some("niño"));
}

#[test]
fn a_meeting_is_announced_started_once() {
    let n = ts(2026, 1, 1, 12, 0);
    let t = thresholds_from(15, 5, 1);
    let events = vec![ev("m", n + 120)];
    let mut tracker = NotificationTracker::default();
    let first = tracker.tick(&events, n, &t);
    assert_eq!(first.len(), 1);
    assert_eq!(first[0].phase, Phase::Red);
    let started = tracker.tick(&events, n + 120, &t);
    assert_eq!(started.len(), 1);
    assert_eq!(started[0].phase, Phase::Started);
    assert!(tracker.tick(&events, n + 180, &t).is_empty());
    assert!(tracker.tick(&events, n + 4000, &t).is_empty());
}

#[test]
fn agenda_excludes_events_days_away() {
    let now = ts(2026, 1, 1, 15, 0);
    let events = vec![ev("past", now - 5 * 3600), ev("later", now + 3 * 86400), ev("before", now - 3 * 86400)];
    let today = events_for_today(&events, now);
    assert!(today.iter().all(|e| e.uid != "later" && e.uid != "before"));
}

#[test]
fn a_series_is_expanded_in_the_window() {
    let text = calendar(
        "BEGIN:VEVENT\r\nUID:weekly@test\r\nDTSTART;TZID=America/Santiago:20260105T093000\r\n\
RRULE:FREQ=WEEKLY;COUNT=4\r\nEND:VEVENT\r\n",
    );
    let events = parse_and_filter_events(&text, None, ts(2026, 1, 1, 0, 0), ts(2026, 2, 1, 0, 0)).unwrap();
    let starts: Vec<i64> = events.iter().map(|e| e.start).collect();
    // 09:30 in Santiago in January is 12:30 UTC.
    assert_eq!(
        starts,
        vec![ts(2026, 1, 5, 12, 30), ts(2026, 1, 12, 12, 30), ts(2026, 1, 19, 12, 30), ts(2026, 1, 26, 12, 30)]
    );
}

use calendar_tray::calendar::ics::{
    extract_email_from_ics_url, extract_meeting_url, parse_and_filter_events, percent_decode,
    IcsCalendarSource,
};
use calendar_tray::calendar::{CalendarError, RsvpStatus};
use chrono::{TimeZone, Utc};

fn ts(y: i32, mo: u32, d: u32, h: u32, mi: u32) -> i64 {
    Utc.with_ymd_and_hms(y, mo, d, h, mi, 0).unwrap().timestamp()
}

fn calendar(events: &str) -> String {
    format!("BEGIN:VCALENDAR\r\nVERSION:2.0\r\nPRODID:-//Test//Test//EN\r\n{events}END:VCALENDAR\r\n")
}

#[test]
fn percent_decode_handles_escapes_and_failures() {
    assert_eq!(percent_decode("me%40wom.cl").as_deref(), Some("me@wom.cl"));
    assert_eq!(percent_decode("caf%C3%A9").as_deref(), Some("café"));
    assert_eq!(percent_decode("plain").as_deref(), Some("plain"));
    assert_eq!(percent_decode("bad%zzescape"), None);
    // An escape needs two more bytes after the `%`; otherwise the `%` is kept.
    assert_eq!(percent_decode("a%4").as_deref(), Some("a%4"));
    // `u8::from_str_radix` accepts a leading `+`.
    assert_eq!(percent_decode("%+4").as_deref(), Some("\u{4}"));
    // A lone continuation byte is not UTF-8.
    assert_eq!(percent_decode("%FF"), None);
}

#[test]
fn email_needs_the_ical_segment_and_a_following_slash() {
    assert_eq!(extract_email_from_ics_url("https://example.com/feed.ics"), None);
    assert_eq!(extract_email_from_ics_url("https://x/calendar/ical/me%40wom.cl"), None);
    assert_eq!(
        extract_email_from_ics_url("https://x/ical/first%40a.cl/y/ical/second%40b.cl/z").as_deref(),
        Some("first@a.cl")
    );
}

#[test]
fn source_takes_the_owner_from_its_url() {
    let src = IcsCalendarSource::new(
        "https://calendar.google.com/calendar/ical/me%40wom.cl/private-abc123/basic.ics".to_string(),
    );
    assert_eq!(src.user_email().as_deref(), Some("me@wom.cl"));
    assert!(src.feed_url().ends_with("basic.ics"));
}

#[test]
fn meeting_links_are_trimmed_and_need_a_scheme() {
    assert_eq!(
        extract_meeting_url("(https://meet.google.com/abc-defg-hij)!").as_deref(),
        Some("https://meet.google.com/abc-defg-hij")
    );
    // A trailing dot is a URL character, so it stays.
    assert_eq!(
        extract_meeting_url("(https://meet.google.com/abc-defg-hij).").as_deref(),
        Some("https://meet.google.com/abc-defg-hij).")
    );
    assert_eq!(
        extract_meeting_url("plain http://company.zoom.us/j/99 works").as_deref(),
        Some("http://company.zoom.us/j/99")
    );
    assert_eq!(extract_meeting_url("meet.google.com/abc-defg-hij"), None);
    assert_eq!(extract_meeting_url("https://example.com/meeting"), None);
    assert_eq!(
        extract_meeting_url("https://zoom.us/j/1 https://meet.google.com/x").as_deref(),
        Some("https://zoom.us/j/1")
    );
    assert_eq!(extract_meeting_url(""), None);
}

#[test]
fn unparsable_feed_is_a_parse_error() {
    let r = parse_and_filter_events("this is not a calendar", None, 0, 86400);
    assert!(matches!(r, Err(CalendarError::Parse(_))));
}

#[test]
fn error_messages_name_the_failing_step() {
    assert_eq!(
        CalendarError::Fetch("timeout".into()).message(),
        "no se pudo obtener el feed: timeout"
    );
    assert_eq!(
        CalendarError::Parse("bad".into()).message(),
        "no se pudo interpretar el feed ICS: bad"
    );
}

#[test]
fn owner_is_matched_case_insensitively_and_without_mailto() {
    let text = calendar(
        "BEGIN:VEVENT\r\nUID:d@test\r\nDTSTART:20260101T100000Z\r\nDTEND:20260101T110000Z\r\n\
SUMMARY:Declinada\r\nATTENDEE;PARTSTAT=DECLINED:MAILTO:Me@Wom.CL\r\nEND:VEVENT\r\n\
BEGIN:VEVENT\r\nUID:a@test\r\nDTSTART:20260101T120000Z\r\nDTEND:20260101T130000Z\r\n\
SUMMARY:Aceptada\r\nATTENDEE;PARTSTAT=ACCEPTED:mailto:ME@wom.cl\r\nEND:VEVENT\r\n",
    );
    let events =
        parse_and_filter_events(&text, Some("me@WOM.cl"), ts(2026, 1, 1, 0, 0), ts(2026, 1, 2, 0, 0))
            .unwrap();
    assert_eq!(events.len(), 1);
    assert_eq!(events[0].uid, "a@test");
    assert_eq!(events[0].rsvp, RsvpStatus::Accepted);
}

#[test]
fn event_fields_default_when_missing_and_links_come_from_description_or_location() {
    let text = calendar(
        "BEGIN:VEVENT\r\nDTSTART:20260101T100000Z\r\nLOCATION:https://teams.microsoft.com/l/x\r\n\
END:VEVENT\r\n",
    );
    let events = parse_and_filter_events(&text, None, ts(2026, 1, 1, 0, 0), ts(2026, 1, 2, 0, 0))
        .unwrap();
    assert_eq!(events.len(), 1);
    let e = &events[0];
    assert_eq!(e.uid, "");
    assert_eq!(e.summary, "(sin titulo)");
    assert_eq!(e.start, ts(2026, 1, 1, 10, 0));
    assert_eq!(e.end, e.start, "without DTEND an event ends when it starts");
    assert_eq!(e.meeting_url.as_deref(), Some("https://teams.microsoft.com/l/x"));
    assert_eq!(e.rsvp, RsvpStatus::Accepted, "without an owner email nothing is hidden");
}

#[test]
fn window_is_half_open_for_single_events() {
    let text = calendar(
        "BEGIN:VEVENT\r\nUID:at-from@test\r\nDTSTART:20260101T000000Z\r\nEND:VEVENT\r\n\
BEGIN:VEVENT\r\nUID:at-to@test\r\nDTSTART:20260102T000000Z\r\nEND:VEVENT\r\n",
    );
    let events = parse_and_filter_events(&text, None, ts(2026, 1, 1, 0, 0), ts(2026, 1, 2, 0, 0))
        .unwrap();
    let uids: Vec<&str> = events.iter().map(|e| e.uid.as_str()).collect();
    assert_eq!(uids, vec!["at-from@test"]);
}

#[test]
fn cancelled_declined_and_all_day_series_are_not_expanded() {
    let text = calendar(
        "BEGIN:VEVENT\r\nUID:cancelled@test\r\nDTSTART:20260101T090000Z\r\nRRULE:FREQ=DAILY;COUNT=3\r\n\
STATUS:CANCELLED\r\nEND:VEVENT\r\n\
BEGIN:VEVENT\r\nUID:declined@test\r\nDTSTART:20260101T100000Z\r\nRRULE:FREQ=DAILY;COUNT=3\r\n\
ATTENDEE;PARTSTAT=DECLINED:mailto:me@wom.cl\r\nEND:VEVENT\r\n\
BEGIN:VEVENT\r\nUID:allday@test\r\nDTSTART;VALUE=DATE:20260101\r\nRRULE:FREQ=DAILY;COUNT=3\r\n\
END:VEVENT\r\n\
BEGIN:VEVENT\r\nUID:daily@test\r\nDTSTART:20260101T110000Z\r\nDTEND:20260101T111500Z\r\n\
RRULE:FREQ=DAILY;COUNT=3\r\nEND:VEVENT\r\n",
    );
    let events = parse_and_filter_events(
        &text,
        Some("me@wom.cl"),
        ts(2026, 1, 1, 0, 0),
        ts(2026, 1, 5, 0, 0),
    )
    .unwrap();
    let uids: Vec<&str> = events.iter().map(|e| e.uid.as_str()).collect();
    assert_eq!(uids, vec!["daily@test", "daily@test", "daily@test"]);
    assert_eq!(events[1].start, ts(2026, 1, 2, 11, 0));
    assert_eq!(events[1].end, ts(2026, 1, 2, 11, 15));
    assert!(events.iter().all(|e| !e.all_day));
}

#[test]
fn accepted_moved_instance_of_a_declined_series_is_shown() {
    let text = calendar(
        "BEGIN:VEVENT\r\nUID:s@test\r\nDTSTART:20260101T090000Z\r\nRRULE:FREQ=DAILY;COUNT=3\r\n\
ATTENDEE;PARTSTAT=DECLINED:mailto:me@wom.cl\r\nEND:VEVENT\r\n\
BEGIN:VEVENT\r\nUID:s@test\r\nRECURRENCE-ID:20260102T090000Z\r\nDTSTART:20260102T150000Z\r\n\
SUMMARY:Movida\r\nATTENDEE;PARTSTAT=ACCEPTED:mailto:me@wom.cl\r\nEND:VEVENT\r\n",
    );
    let events = parse_and_filter_events(
        &text,
        Some("me@wom.cl"),
        ts(2026, 1, 1, 0, 0),
        ts(2026, 1, 5, 0, 0),
    )
    .unwrap();
    assert_eq!(events.len(), 1);
    assert_eq!(events[0].summary, "Movida");
    assert_eq!(events[0].start, ts(2026, 1, 2, 15, 0));
}

#[test]
fn results_are_ordered_by_start_and_never_declined() {
    let text = calendar(
        "BEGIN:VEVENT\r\nUID:late@test\r\nDTSTART:20260101T180000Z\r\nEND:VEVENT\r\n\
BEGIN:VEVENT\r\nUID:early@test\r\nDTSTART:20260101T080000Z\r\nEND:VEVENT\r\n\
BEGIN:VEVENT\r\nUID:tie-1@test\r\nDTSTART:20260101T120000Z\r\nEND:VEVENT\r\n\
BEGIN:VEVENT\r\nUID:tie-2@test\r\nDTSTART:20260101T120000Z\r\nEND:VEVENT\r\n",
    );
    let from = ts(2026, 1, 1, 0, 0);
    let to = ts(2026, 1, 2, 0, 0);
    let events = parse_and_filter_events(&text, None, from, to).unwrap();
    let uids: Vec<&str> = events.iter().map(|e| e.uid.as_str()).collect();
    assert_eq!(uids, vec!["early@test", "tie-1@test", "tie-2@test", "late@test"]);
    assert!(events.iter().all(|e| e.rsvp != RsvpStatus::Declined && from <= e.start && e.start < to));
}

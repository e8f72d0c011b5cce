use calendar_tray::calendar::ics::{
    extract_email_from_ics_url, extract_meeting_url, parse_and_filter_events, percent_decode,
};
use calendar_tray::calendar::RsvpStatus;
use chrono::{TimeZone, Utc};

fn ts(y: i32, mo: u32, d: u32, h: u32, mi: u32) -> i64 {
    Utc.with_ymd_and_hms(y, mo, d, h, mi, 0).unwrap().timestamp()
}

const FIXTURE: &str = "BEGIN:VCALENDAR\r\n\
VERSION:2.0\r\n\
PRODID:-//Test//Test//EN\r\n\
BEGIN:VEVENT\r\n\
UID:accepted-1@test\r\n\
DTSTAMP:20260101T000000Z\r\n\
DTSTART:20260101T100000Z\r\n\
DTEND:20260101T110000Z\r\n\
SUMMARY:Reunion aceptada\r\n\
ATTENDEE;PARTSTAT=ACCEPTED:mailto:me@wom.cl\r\n\
END:VEVENT\r\n\
BEGIN:VEVENT\r\n\
UID:needs-action-1@test\r\n\
DTSTAMP:20260101T000000Z\r\n\
DTSTART:20260101T120000Z\r\n\
DTEND:20260101T130000Z\r\n\
SUMMARY:Reunion sin responder\r\n\
ATTENDEE;PARTSTAT=NEEDS-ACTION:mailto:me@wom.cl\r\n\
END:VEVENT\r\n\
BEGIN:VEVENT\r\n\
UID:declined-1@test\r\n\
DTSTAMP:20260101T000000Z\r\n\
DTSTART:20260101T140000Z\r\n\
DTEND:20260101T150000Z\r\n\
SUMMARY:Reunion rechazada\r\n\
ATTENDEE;PARTSTAT=DECLINED:mailto:me@wom.cl\r\n\
END:VEVENT\r\n\
BEGIN:VEVENT\r\n\
UID:cancelled-1@test\r\n\
DTSTAMP:20260101T000000Z\r\n\
DTSTART:20260101T160000Z\r\n\
DTEND:20260101T170000Z\r\n\
SUMMARY:Reunion cancelada\r\n\
STATUS:CANCELLED\r\n\
END:VEVENT\r\n\
BEGIN:VEVENT\r\n\
UID:allday-1@test\r\n\
DTSTAMP:20260101T000000Z\r\n\
DTSTART;VALUE=DATE:20260101\r\n\
DTEND;VALUE=DATE:20260102\r\n\
SUMMARY:Evento todo el dia\r\n\
END:VEVENT\r\n\
BEGIN:VEVENT\r\n\
UID:outside-range-1@test\r\n\
DTSTAMP:20260101T000000Z\r\n\
DTSTART:20260103T100000Z\r\n\
DTEND:20260103T110000Z\r\n\
SUMMARY:Fuera de rango\r\n\
ATTENDEE;PARTSTAT=ACCEPTED:mailto:me@wom.cl\r\n\
END:VEVENT\r\n\
BEGIN:VEVENT\r\n\
UID:recurring-1@test\r\n\
DTSTAMP:20260101T000000Z\r\n\
DTSTART:20260101T090000Z\r\n\
DTEND:20260101T093000Z\r\n\
RRULE:FREQ=WEEKLY;COUNT=5\r\n\
SUMMARY:Reunion semanal\r\n\
ATTENDEE;PARTSTAT=ACCEPTED:mailto:me@wom.cl\r\n\
END:VEVENT\r\n\
END:VCALENDAR\r\n";

#[test]
fn filtra_declined_cancelados_y_expande_recurrentes() {
    let from = ts(2026, 1, 1, 0, 0);
    let to = ts(2026, 1, 2, 0, 0);

    let events = parse_and_filter_events(FIXTURE, Some("me@wom.cl"), from, to).unwrap();
    let uids: Vec<&str> = events.iter().map(|e| e.uid.as_str()).collect();

    assert_eq!(
        uids,
        vec![
            "allday-1@test",
            "recurring-1@test",
            "accepted-1@test",
            "needs-action-1@test"
        ],
        "declined, cancelado y fuera-de-rango deben quedar afuera; la serie recurrente \
         debe aparecer expandida (su primera ocurrencia cae en el rango)"
    );
}

#[test]
fn serie_recurrente_expande_multiples_ocurrencias_en_rango_amplio() {
    // COUNT=5 semanal desde 2026-01-01 09:00 -> ocurrencias en las semanas 1,2,3,4,5.
    let from = ts(2026, 1, 1, 0, 0);
    let to = ts(2026, 1, 22, 0, 0); // 3 semanas

    let events = parse_and_filter_events(FIXTURE, Some("me@wom.cl"), from, to).unwrap();
    let occurrences: Vec<_> = events.iter().filter(|e| e.uid == "recurring-1@test").collect();

    assert_eq!(occurrences.len(), 3, "deberian caer 3 ocurrencias semanales en 3 semanas");
    assert_eq!(occurrences[0].start, ts(2026, 1, 1, 9, 0));
    assert_eq!(occurrences[1].start, ts(2026, 1, 8, 9, 0));
    assert_eq!(occurrences[2].start, ts(2026, 1, 15, 9, 0));
}

const RECURRENCE_WITH_OVERRIDE_FIXTURE: &str = "BEGIN:VCALENDAR\r\n\
VERSION:2.0\r\n\
PRODID:-//Test//Test//EN\r\n\
BEGIN:VEVENT\r\n\
UID:weekly-sync@test\r\n\
DTSTAMP:20260101T000000Z\r\n\
DTSTART:20260101T090000Z\r\n\
DTEND:20260101T093000Z\r\n\
RRULE:FREQ=WEEKLY;COUNT=4\r\n\
SUMMARY:Weekly sync\r\n\
ATTENDEE;PARTSTAT=ACCEPTED:mailto:me@wom.cl\r\n\
END:VEVENT\r\n\
BEGIN:VEVENT\r\n\
UID:weekly-sync@test\r\n\
DTSTAMP:20260101T000000Z\r\n\
RECURRENCE-ID:20260108T090000Z\r\n\
DTSTART:20260108T140000Z\r\n\
DTEND:20260108T143000Z\r\n\
SUMMARY:Weekly sync (movida a la tarde)\r\n\
ATTENDEE;PARTSTAT=ACCEPTED:mailto:me@wom.cl\r\n\
END:VEVENT\r\n\
END:VCALENDAR\r\n";

#[test]
fn excepcion_puntual_reemplaza_la_ocurrencia_fantasma_de_la_serie() {
    let from = ts(2026, 1, 1, 0, 0);
    let to = ts(2026, 1, 23, 0, 0);

    let events =
        parse_and_filter_events(RECURRENCE_WITH_OVERRIDE_FIXTURE, Some("me@wom.cl"), from, to)
            .unwrap();
    let occurrences: Vec<_> = events.iter().filter(|e| e.uid == "weekly-sync@test").collect();

    // 4 ocurrencias totales (COUNT=4), ninguna duplicada por la excepcion.
    assert_eq!(occurrences.len(), 4);

    // La semana 2 no aparece a las 09:00 (hora original) sino a las 14:00 (hora movida).
    assert!(!occurrences.iter().any(|e| e.start == ts(2026, 1, 8, 9, 0)));
    assert!(occurrences
        .iter()
        .any(|e| e.start == ts(2026, 1, 8, 14, 0) && e.summary == "Weekly sync (movida a la tarde)"));
}

#[test]
fn needs_action_se_trata_igual_que_accepted() {
    let from = ts(2026, 1, 1, 0, 0);
    let to = ts(2026, 1, 2, 0, 0);

    let events = parse_and_filter_events(FIXTURE, Some("me@wom.cl"), from, to).unwrap();
    let needs_action = events
        .iter()
        .find(|e| e.uid == "needs-action-1@test")
        .expect("needs-action-1 deberia estar presente");

    assert_eq!(needs_action.rsvp, RsvpStatus::NeedsAction);
}

#[test]
fn evento_todo_el_dia_se_marca_como_tal() {
    let from = ts(2026, 1, 1, 0, 0);
    let to = ts(2026, 1, 2, 0, 0);

    let events = parse_and_filter_events(FIXTURE, Some("me@wom.cl"), from, to).unwrap();
    let all_day = events
        .iter()
        .find(|e| e.uid == "allday-1@test")
        .expect("allday-1 deberia estar presente");

    assert!(all_day.all_day);
}

#[test]
fn extrae_link_de_meet() {
    let text = "Unite a la videollamada: https://meet.google.com/abc-defg-hij por Meet";
    assert_eq!(
        extract_meeting_url(text).as_deref(),
        Some("https://meet.google.com/abc-defg-hij")
    );
}

#[test]
fn extrae_link_de_zoom() {
    let text = "Join Zoom Meeting\nhttps://wom.zoom.us/j/123456789?pwd=abc\nMeeting ID: 123";
    assert_eq!(
        extract_meeting_url(text).as_deref(),
        Some("https://wom.zoom.us/j/123456789?pwd=abc")
    );
}

#[test]
fn extrae_link_de_teams() {
    let text = "<a href=\"https://teams.microsoft.com/l/meetup-join/19%3ameeting_abc\">Unirse</a>";
    assert_eq!(
        extract_meeting_url(text).as_deref(),
        Some("https://teams.microsoft.com/l/meetup-join/19%3ameeting_abc")
    );
}

#[test]
fn sin_link_de_reunion_devuelve_none() {
    assert_eq!(extract_meeting_url("Reunion presencial en sala 3"), None);
}

#[test]
fn extrae_email_de_url_privada_de_google() {
    let url = "https://calendar.google.com/calendar/ical/me%40wom.cl/private-abc123/basic.ics";
    assert_eq!(extract_email_from_ics_url(url).as_deref(), Some("me@wom.cl"));
}

#[test]
fn sin_email_propio_no_oculta_needs_action() {
    // Sin poder matchear ATTENDEE, no se debe asumir DECLINED.
    let from = ts(2026, 1, 1, 0, 0);
    let to = ts(2026, 1, 2, 0, 0);

    let events = parse_and_filter_events(FIXTURE, None, from, to).unwrap();
    let uids: Vec<&str> = events.iter().map(|e| e.uid.as_str()).collect();

    assert!(uids.contains(&"accepted-1@test"));
    assert!(uids.contains(&"needs-action-1@test"));
}

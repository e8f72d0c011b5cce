use calendar_tray::agenda::{classify_row, events_for_today, RowStatus};
use calendar_tray::calendar::{CalendarEvent, RsvpStatus};
use chrono::{TimeZone, Utc};

fn now() -> i64 {
    // Mediodia local para no rozar el borde de dia calendario en el test.
    Utc.with_ymd_and_hms(2026, 1, 1, 15, 0, 0).unwrap().timestamp()
}

fn event(uid: &str, start_offset_min: i64, dur_min: i64, all_day: bool) -> CalendarEvent {
    let start = now() + start_offset_min * 60;
    CalendarEvent {
        uid: uid.into(),
        summary: uid.into(),
        start,
        end: start + dur_min * 60,
        all_day,
        rsvp: RsvpStatus::Accepted,
        meeting_url: None,
    }
}

#[test]
fn clasifica_pasada_actual_cercana_y_futura() {
    let t = now();
    assert!(matches!(classify_row(&event("a", -120, 30, false), t, 15), RowStatus::Past));
    assert!(matches!(classify_row(&event("b", -10, 30, false), t, 15), RowStatus::Ongoing));
    assert!(matches!(classify_row(&event("c", 10, 30, false), t, 15), RowStatus::Near));
    assert!(matches!(classify_row(&event("d", 120, 30, false), t, 15), RowStatus::Future));
    assert!(matches!(classify_row(&event("e", 0, 30, true), t, 15), RowStatus::AllDay));
}

#[test]
fn events_for_today_incluye_pasadas_del_mismo_dia_y_excluye_otros_dias() {
    let t = now();
    let events = vec![
        event("pasada-hoy", -300, 30, false),
        event("futura-hoy", 300, 30, false),
        event("manana", 60 * 24, 30, false), // mas de 24h -> otro dia
    ];

    let today = events_for_today(&events, t);
    let uids: Vec<&str> = today.iter().map(|e| e.uid.as_str()).collect();

    assert!(uids.contains(&"pasada-hoy"));
    assert!(uids.contains(&"futura-hoy"));
    assert!(!uids.contains(&"manana"));
}

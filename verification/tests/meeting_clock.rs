use calendar_tray::calendar::{CalendarEvent, RsvpStatus};
use calendar_tray::meeting_clock::{find_next_meeting, SemaphoreColor, Thresholds};
use chrono::{TimeZone, Utc};

fn thresholds() -> Thresholds {
    Thresholds { green_minutes: 15, yellow_minutes: 5, blink_minutes: 1 }
}

fn event_at(uid: &str, minutes_from_now: i64, now: i64, all_day: bool) -> CalendarEvent {
    let start = now + minutes_from_now * 60;
    CalendarEvent {
        uid: uid.to_string(),
        summary: uid.to_string(),
        start,
        end: start + 30 * 60,
        all_day,
        rsvp: RsvpStatus::Accepted,
        meeting_url: None,
    }
}

fn now() -> i64 {
    Utc.with_ymd_and_hms(2026, 1, 1, 12, 0, 0).unwrap().timestamp()
}

#[test]
fn elige_la_reunion_mas_cercana_en_el_futuro() {
    let now = now();
    let events = vec![event_at("lejos", 120, now, false), event_at("cerca", 10, now, false)];

    let next = find_next_meeting(&events, now, &thresholds()).unwrap();
    assert_eq!(next.event.uid, "cerca");
    assert_eq!(next.minutes_remaining, 10);
}

#[test]
fn ignora_reuniones_que_ya_empezaron() {
    let now = now();
    let events = vec![event_at("ya-empezo", -5, now, false)];

    assert!(find_next_meeting(&events, now, &thresholds()).is_none());
}

#[test]
fn ignora_eventos_de_dia_completo() {
    let now = now();
    let events = vec![event_at("todo-el-dia", 60, now, true)];

    assert!(find_next_meeting(&events, now, &thresholds()).is_none());
}

#[test]
fn ignora_reuniones_fuera_de_la_ventana_de_24h() {
    let now = now();
    let events = vec![event_at("manana-tarde", 25 * 60, now, false)];

    assert!(find_next_meeting(&events, now, &thresholds()).is_none());
}

#[test]
fn clasifica_colores_segun_umbrales() {
    let now = now();
    let t = thresholds();

    let verde = find_next_meeting(&vec![event_at("v", 20, now, false)], now, &t).unwrap();
    assert_eq!(verde.color, SemaphoreColor::Green);
    assert!(!verde.blinking);

    let amarillo = find_next_meeting(&vec![event_at("a", 10, now, false)], now, &t).unwrap();
    assert_eq!(amarillo.color, SemaphoreColor::Yellow);

    let rojo = find_next_meeting(&vec![event_at("r", 3, now, false)], now, &t).unwrap();
    assert_eq!(rojo.color, SemaphoreColor::Red);
    assert!(!rojo.blinking);

    let parpadeo = find_next_meeting(&vec![event_at("p", 1, now, false)], now, &t).unwrap();
    assert_eq!(parpadeo.color, SemaphoreColor::Red);
    assert!(parpadeo.blinking);
}

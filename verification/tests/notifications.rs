use calendar_tray::calendar::{CalendarEvent, RsvpStatus};
use calendar_tray::meeting_clock::Thresholds;
use calendar_tray::notifications::{format_toast, NotificationTracker, Phase, ToastEvent};
use chrono::{TimeZone, Utc};

fn thresholds() -> Thresholds {
    Thresholds { green_minutes: 15, yellow_minutes: 5, blink_minutes: 1 }
}

fn event_at(uid: &str, summary: &str, minutes_from_now: i64, now: i64) -> CalendarEvent {
    let start = now + minutes_from_now * 60;
    CalendarEvent {
        uid: uid.to_string(),
        summary: summary.to_string(),
        start,
        end: start + 30 * 60,
        all_day: false,
        rsvp: RsvpStatus::Accepted,
        meeting_url: None,
    }
}

fn base_now() -> i64 {
    Utc.with_ymd_and_hms(2026, 1, 1, 12, 0, 0).unwrap().timestamp()
}

#[test]
fn avisa_una_sola_vez_por_fase_no_todos_los_ticks() {
    let mut tracker = NotificationTracker::default();
    let now = base_now();
    let events = vec![event_at("m1", "Daily", 20, now)];
    let t = thresholds();

    let first = tracker.tick(&events, now, &t);
    assert_eq!(first.len(), 1);
    assert_eq!(first[0].phase, Phase::Green);

    // Mismo tick/estado otra vez -> no debe repetir el aviso.
    let second = tracker.tick(&events, now, &t);
    assert!(second.is_empty());
}

#[test]
fn avisa_en_cada_transicion_de_color() {
    let mut tracker = NotificationTracker::default();
    let t = thresholds();
    let start_now = base_now();
    let event_start = start_now + 20 * 60;
    let make_events = |_now: i64| {
        vec![CalendarEvent {
            uid: "m1".into(),
            summary: "Daily".into(),
            start: event_start,
            end: event_start + 30 * 60,
            all_day: false,
            rsvp: RsvpStatus::Accepted,
            meeting_url: None,
        }]
    };

    let verde = tracker.tick(&make_events(start_now), start_now, &t);
    assert_eq!(verde[0].phase, Phase::Green);

    let now_amarillo = event_start - 10 * 60;
    let amarillo = tracker.tick(&make_events(now_amarillo), now_amarillo, &t);
    assert_eq!(amarillo[0].phase, Phase::Yellow);

    let now_rojo = event_start - 3 * 60;
    let rojo = tracker.tick(&make_events(now_rojo), now_rojo, &t);
    assert_eq!(rojo[0].phase, Phase::Red);
}

#[test]
fn avisa_ahora_cuando_arranca_aunque_ya_no_sea_la_proxima() {
    let mut tracker = NotificationTracker::default();
    let t = thresholds();
    let now = base_now();
    let events = vec![event_at("m1", "Daily", 3, now)];

    let rojo = tracker.tick(&events, now, &t);
    assert_eq!(rojo[0].phase, Phase::Red);

    // El tiempo pasa y la reunion ya arranco -- ya no es la proxima porque start <= now,
    // pero igual debe avisar "ahora".
    let now_started = now + 4 * 60;
    let ahora = tracker.tick(&events, now_started, &t);
    assert_eq!(ahora.len(), 1);
    assert_eq!(ahora[0].phase, Phase::Started);
    assert_eq!(ahora[0].summaries, vec!["Daily".to_string()]);
}

#[test]
fn agrupa_reuniones_que_coinciden_en_horario_en_un_solo_toast() {
    let mut tracker = NotificationTracker::default();
    let t = thresholds();
    let now = base_now();
    let events = vec![event_at("a", "Reunion A", 10, now), event_at("b", "Reunion B", 10, now)];

    let toasts = tracker.tick(&events, now, &t);
    assert_eq!(toasts.len(), 1);
    assert_eq!(toasts[0].summaries.len(), 2);
}

#[test]
fn format_toast_usa_singular_y_plural_correctamente() {
    let uno = ToastEvent { summaries: vec!["Daily".into()], phase: Phase::Yellow, minutes_remaining: 8 };
    assert_eq!(format_toast(&uno), "Reunión Daily en 8 min");

    let dos = ToastEvent {
        summaries: vec!["A".into(), "B".into()],
        phase: Phase::Started,
        minutes_remaining: 0,
    };
    assert_eq!(format_toast(&dos), "Reuniones A, B ahora");
}

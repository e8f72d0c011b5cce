use calendar_tray::app_state::{thresholds_from, AppState, DisplayState, STALE_GRACE_SECS};
use calendar_tray::calendar::{CalendarEvent, RsvpStatus};
use calendar_tray::meeting_clock::Thresholds;
use chrono::{TimeZone, Utc};

fn now() -> i64 {
    Utc.with_ymd_and_hms(2026, 1, 1, 12, 0, 0).unwrap().timestamp()
}

fn thresholds() -> Thresholds {
    thresholds_from(15, 5, 1)
}

fn meeting_in(minutes: i64, now: i64) -> CalendarEvent {
    let start = now + minutes * 60;
    CalendarEvent {
        uid: "m1".into(),
        summary: "Reunion".into(),
        start,
        end: start + 30 * 60,
        all_day: false,
        rsvp: RsvpStatus::Accepted,
        meeting_url: None,
    }
}

#[test]
fn sin_datos_ni_error_muestra_neutro() {
    let state = AppState::default();
    assert_eq!(state.compute_display(now(), &thresholds()), DisplayState::Neutral);
}

#[test]
fn primer_fetch_fallido_sin_datos_previos_muestra_error() {
    let mut state = AppState::default();
    state.on_fetch_error("timeout".into());

    match state.compute_display(now(), &thresholds()) {
        DisplayState::Error { message } => assert_eq!(message, "timeout"),
        other => panic!("esperaba Error, salio {other:?}"),
    }
}

#[test]
fn fetch_fallido_reciente_no_tapa_la_ultima_data_buena() {
    let mut state = AppState::default();
    let now = now();
    state.on_fetch_success(vec![meeting_in(10, now)], now);
    state.on_fetch_error("timeout".into());

    // El error ocurrio "ahora", dentro del margen de tolerancia -> sigue mostrando la
    // reunion conocida, no el estado de error.
    match state.compute_display(now, &thresholds()) {
        DisplayState::Meeting { uid, .. } => assert_eq!(uid, "m1"),
        other => panic!("esperaba Meeting (data todavia fresca), salio {other:?}"),
    }
}

#[test]
fn fetch_fallido_mas_alla_del_margen_degrada_a_error() {
    let mut state = AppState::default();
    let t0 = now();
    state.on_fetch_success(vec![], t0);
    state.on_fetch_error("timeout".into());

    let later = t0 + STALE_GRACE_SECS + 60;
    match state.compute_display(later, &thresholds()) {
        DisplayState::Error { .. } => {}
        other => panic!("esperaba Error tras superar el margen, salio {other:?}"),
    }
}

#[test]
fn silenciar_apaga_el_parpadeo_de_esa_instancia_puntual() {
    let mut state = AppState::default();
    let now = now();
    let meeting = meeting_in(1, now); // dentro del umbral de parpadeo
    state.on_fetch_success(vec![meeting.clone()], now);

    match state.compute_display(now, &thresholds()) {
        DisplayState::Meeting { blinking, .. } => assert!(blinking),
        other => panic!("esperaba Meeting parpadeando, salio {other:?}"),
    }

    state.silence(meeting.uid.clone(), meeting.start);

    match state.compute_display(now, &thresholds()) {
        DisplayState::Meeting { blinking, .. } => assert!(!blinking, "deberia estar silenciada"),
        other => panic!("esperaba Meeting sin parpadeo, salio {other:?}"),
    }
}

#[test]
fn silenciar_una_instancia_no_afecta_la_siguiente_reunion() {
    let mut state = AppState::default();
    let now = now();
    let meeting = meeting_in(1, now);
    state.silence(meeting.uid.clone(), meeting.start);

    // Nueva instancia (mismo uid, otro start) de una serie recurrente -> no deberia
    // heredar el silencio.
    let mut next_occurrence = meeting.clone();
    next_occurrence.start = meeting.start + 7 * 86400;
    next_occurrence.end = meeting.end + 7 * 86400;
    state.on_fetch_success(vec![next_occurrence], now);

    match state.compute_display(now, &thresholds()) {
        DisplayState::Meeting { .. } => {}
        DisplayState::Neutral => {} // fuera de la ventana de 24h, tambien valido
        other => panic!("no esperaba {other:?}"),
    }
}

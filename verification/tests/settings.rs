use calendar_tray::autostart::run_command;
use calendar_tray::config::{apply_settings_form, AppConfig, CalendarSourceKind, ThemePreference};
use calendar_tray::tray::TrayState;

#[test]
fn default_config_values() {
    let c = AppConfig::default();
    assert_eq!(c.ics_feed_url, "");
    assert_eq!(c.source, CalendarSourceKind::Ics);
    assert_eq!(c.green_threshold_minutes, 15);
    assert_eq!(c.yellow_threshold_minutes, 5);
    assert_eq!(c.blink_threshold_minutes, 1);
    assert_eq!(c.snooze_minutes, 2);
    assert_eq!(c.do_not_disturb_max_minutes, 30);
    assert_eq!(c.theme, ThemePreference::System);
    assert!(!c.autostart);
    assert_eq!(c.refresh_interval_minutes, 5);
    assert!(c.is_unconfigured());
}

#[test]
fn unconfigured_means_blank_url() {
    let mut c = AppConfig::default();
    c.ics_feed_url = " \t\u{3000}\n".to_string();
    assert!(c.is_unconfigured());
    c.ics_feed_url = "  https://x  ".to_string();
    assert!(!c.is_unconfigured());
}

#[test]
fn settings_form_accepts_numbers_and_trims() {
    let mut base = AppConfig::default();
    base.autostart = true;
    base.theme = ThemePreference::Dark;
    let c = apply_settings_form(&base, "  https://feed.ics ", " 20", "+7", "2 ", "10").unwrap();
    assert_eq!(c.ics_feed_url, "https://feed.ics");
    assert_eq!(c.green_threshold_minutes, 20);
    assert_eq!(c.yellow_threshold_minutes, 7);
    assert_eq!(c.blink_threshold_minutes, 2);
    assert_eq!(c.refresh_interval_minutes, 10);
    assert!(c.autostart);
    assert_eq!(c.theme, ThemePreference::Dark);
    assert_eq!(c.snooze_minutes, 2);
}

#[test]
fn settings_form_rejects_bad_numbers_and_zero_refresh() {
    let base = AppConfig::default();
    assert!(apply_settings_form(&base, "u", "15", "5", "1", "0").is_none());
    assert!(apply_settings_form(&base, "u", "-1", "5", "1", "5").is_none());
    assert!(apply_settings_form(&base, "u", "15", "", "1", "5").is_none());
    assert!(apply_settings_form(&base, "u", "15", "5", "+", "5").is_none());
    assert!(apply_settings_form(&base, "u", "4294967296", "5", "1", "5").is_none());
    assert!(apply_settings_form(&base, "u", "1 5", "5", "1", "5").is_none());
    assert_eq!(
        apply_settings_form(&base, "u", "4294967295", "5", "1", "5").unwrap().green_threshold_minutes,
        4294967295
    );
}

#[test]
fn run_command_quotes_the_path() {
    assert_eq!(
        run_command(r"C:\Program Files\CalendarTray\calendar_tray.exe"),
        "\"C:\\Program Files\\CalendarTray\\calendar_tray.exe\""
    );
}

#[test]
fn tray_colors() {
    assert_eq!(TrayState::Green.rgb(), [46, 160, 67]);
    assert_eq!(TrayState::Yellow.rgb(), [212, 168, 24]);
    assert_eq!(TrayState::Red.rgb(), [201, 42, 42]);
    assert_eq!(TrayState::Neutral.rgb(), [160, 160, 160]);
    assert_eq!(TrayState::Error.rgb(), [90, 90, 90]);
    assert_eq!(TrayState::Unconfigured.rgb(), [120, 120, 120]);
}

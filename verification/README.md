# calendar_tray

A Windows tray clock that counts down to the next meeting of a Google Calendar iCal feed.
The logic is a library verified with Verus; the windows, the tray icon, the registry and the
network live in a thin program around it.

## Layout

- `src/` — the verified library:
  - `calendar/ical.rs`: the calls into `icalendar` (parsing, VEVENT properties, recurrence
    expansion), each behind a trusted item whose contract says what the crate shows.
  - `calendar/ics.rs`: what a feed shows — RSVP and cancellation filters, expansion of
    recurring series with their moved instances, meeting-link detection, the owner's email
    from the feed URL.
  - `calendar/mod.rs`: the event type, errors, and a stable sort by start.
  - `meeting_clock.rs`: the next meeting in the rolling 24 hours, traffic-light color and
    blinking.
  - `app_state.rs`: what the icon shows, including the grace period after a failed fetch and
    per-instance silencing.
  - `notifications.rs`: phase-change toasts and their text.
  - `agenda.rs`: the day's agenda rows and the flyout's layout.
  - `config.rs`: settings, defaults and the validation of the settings form.
  - `text.rs`, `time.rs`, `tray.rs`, `autostart.rs`: text helpers, timestamps, icon colors,
    the autostart command line.
- `tests/`: the tests, run against the compiled library.
- `app/`: `main`, the `native-windows-gui` windows, the `tray-icon` icon, TOML settings file,
  registry access and the HTTP download of the feed.

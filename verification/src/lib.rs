//! Core logic of a tray clock that counts down to the next calendar meeting.
use vstd::prelude::*;

pub mod agenda;
pub mod app_state;
pub mod autostart;
pub mod calendar;
pub mod config;
pub mod meeting_clock;
pub mod notifications;
pub mod text;
pub mod time;
pub mod tray;

verus! {

} // verus!

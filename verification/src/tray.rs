//! Tray icon states and their colors.
use vstd::prelude::*;

verus! {

/// What the tray icon is showing.
#[derive(Debug, Clone, Copy, PartialEq, Eq)]
pub enum TrayState {
    /// No feed URL saved yet.
    Unconfigured,
    /// The feed could not be read for longer than the grace period.
    Error,
    /// No eligible meeting within the next 24 hours.
    Neutral,
    Green,
    Yellow,
    Red,
}

/// The RGB color painted for each state.
pub open spec fn spec_tray_rgb(state: TrayState) -> [u8; 3] {
    match state {
        TrayState::Unconfigured => [120u8, 120u8, 120u8],
        TrayState::Error => [90u8, 90u8, 90u8],
        TrayState::Neutral => [160u8, 160u8, 160u8],
        TrayState::Green => [46u8, 160u8, 67u8],
        TrayState::Yellow => [212u8, 168u8, 24u8],
        TrayState::Red => [201u8, 42u8, 42u8],
    }
}

impl TrayState {
    /// The RGB color of this state.
    pub fn rgb(self) -> (c: [u8; 3])
        ensures
            c == spec_tray_rgb(self),
    {
        match self {
            TrayState::Unconfigured => [120, 120, 120],
            TrayState::Error => [90, 90, 90],
            TrayState::Neutral => [160, 160, 160],
            TrayState::Green => [46, 160, 67],
            TrayState::Yellow => [212, 168, 24],
            TrayState::Red => [201, 42, 42],
        }
    }
}

} // verus!

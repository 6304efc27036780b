//! Keyframe animation vocabulary shared with the host: stop positions and player states.

use vstd::prelude::*;

verus! {

/// Position of one `@keyframes` stop: `from` (0%), `to` (100%) or a whole percentage.
#[derive(Debug, Clone, Copy, PartialEq, Eq, Structural)]
pub enum KeyframeStopSelector {
    From,
    To,
    /// 0..=100.
    Percent(u8),
}

/// Run state of a keyframe player. `Stopped` is final: the player is dropped on the next
/// update.
#[derive(Debug, Clone, Copy, PartialEq, Eq, Structural)]
pub enum PlayerPlayState {
    Playing,
    Paused,
    /// Every iteration has run.
    Completed,
    Stopped,
}

impl Default for PlayerPlayState {
    /// A new player plays.
    fn default() -> (r: PlayerPlayState)
        ensures
            r == PlayerPlayState::Playing,
    {
        PlayerPlayState::Playing
    }
}

/// Stable byte of a play state (declaration order), as stored and sent to the host.
pub fn play_state_code(s: PlayerPlayState) -> (r: u8)
    ensures
        r == match s {
            PlayerPlayState::Playing => 0u8,
            PlayerPlayState::Paused => 1u8,
            PlayerPlayState::Completed => 2u8,
            PlayerPlayState::Stopped => 3u8,
        },
{
    match s {
        PlayerPlayState::Playing => 0,
        PlayerPlayState::Paused => 1,
        PlayerPlayState::Completed => 2,
        PlayerPlayState::Stopped => 3,
    }
}

} // verus!

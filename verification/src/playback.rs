//! What playing, pausing and seeking do to a player.
use vstd::prelude::*;

verus! {

#[derive(Clone, Copy, Debug, PartialEq, Eq, Structural)]
pub enum PlaybackState {
    Stopped,
    Playing,
    Paused,
}

/// What a player is asked to do.
#[derive(Clone, Copy, Debug, PartialEq, Eq, Structural)]
pub enum Action {
    Play,
    Pause,
    Stop,
    Seek,
    Volume,
    Switch,
    Choose,
}

/// What follows from an action: the state, whether to go back to the start, and whether
/// switches take effect at once.
#[derive(Clone, Copy, Debug, PartialEq, Eq, Structural)]
pub struct Step {
    pub state: PlaybackState,
    pub rewind: bool,
    pub sync: bool,
}

/// What an action leads to. Playing begins again where the end has been reached; a pause
/// keeps the place; stopping goes back to the start.
pub open spec fn step_of(state: PlaybackState, action: Action, at_end: bool) -> Step {
    match action {
        Action::Play => Step { state: PlaybackState::Playing, rewind: at_end, sync: false },
        Action::Pause => if state == PlaybackState::Playing {
            Step { state: PlaybackState::Paused, rewind: false, sync: true }
        } else {
            Step { state, rewind: false, sync: false }
        },
        Action::Stop => Step { state: PlaybackState::Stopped, rewind: true, sync: false },
        Action::Switch => Step { state, rewind: false, sync: state != PlaybackState::Playing },
        Action::Seek | Action::Volume | Action::Choose => Step {
            state,
            rewind: false,
            sync: false,
        },
    }
}

/// Tells what an action leads to.
pub fn step(state: PlaybackState, action: Action, at_end: bool) -> (s: Step)
    ensures
        s == step_of(state, action, at_end),
{
    match action {
        Action::Play => Step { state: PlaybackState::Playing, rewind: at_end, sync: false },
        Action::Pause => if state == PlaybackState::Playing {
            Step { state: PlaybackState::Paused, rewind: false, sync: true }
        } else {
            Step { state, rewind: false, sync: false }
        },
        Action::Stop => Step { state: PlaybackState::Stopped, rewind: true, sync: false },
        Action::Switch => Step { state, rewind: false, sync: state != PlaybackState::Playing },
        Action::Seek => Step { state, rewind: false, sync: false },
        Action::Volume => Step { state, rewind: false, sync: false },
        Action::Choose => Step { state, rewind: false, sync: false },
    }
}

/// The state after a frame: at the end playing stops.
pub fn after_frame(state: PlaybackState, finished: bool) -> (r: PlaybackState)
    ensures
        r == (if state == PlaybackState::Playing && finished {
            PlaybackState::Stopped
        } else {
            state
        }),
{
    if state == PlaybackState::Playing && finished {
        PlaybackState::Stopped
    } else {
        state
    }
}

/// What was asked for and what the sound device has told, each with the number of the
/// request it belongs to.
#[derive(Clone, Copy, Debug, PartialEq, Eq, Structural)]
pub struct Standing {
    pub revision: u64,
    pub state: PlaybackState,
}

/// Whether what the device has told is as new as what was asked for.
pub open spec fn is_current(published: Standing, requested: Standing) -> bool {
    published.revision >= requested.revision
}

/// The state to show: what the device has told, unless something newer was asked for; a
/// device that failed has stopped.
pub fn shown(published: Standing, requested: Standing, failed: bool) -> (r: (bool, PlaybackState))
    ensures
        r.0 == is_current(published, requested),
        r.1 == (if failed {
            PlaybackState::Stopped
        } else if r.0 {
            published.state
        } else {
            requested.state
        }),
{
    let current = published.revision >= requested.revision;
    let state = if failed {
        PlaybackState::Stopped
    } else if current {
        published.state
    } else {
        requested.state
    };
    (current, state)
}

/// The standing after a request: it has the next number.
pub fn request(requested: Standing, state: PlaybackState) -> (r: Standing)
    ensures
        r.state == state,
        r.revision == (if requested.revision == u64::MAX {
            0u64
        } else {
            (requested.revision + 1) as u64
        }),
{
    Standing { revision: requested.revision.wrapping_add(1), state }
}

/// What a device told before a request does not take the request back.
pub proof fn law_requests_hold(published: Standing, requested: Standing)
    requires
        published.revision <= requested.revision,
        requested.revision < u64::MAX,
    ensures
        !is_current(
            published,
            Standing { revision: (requested.revision + 1) as u64, state: requested.state },
        ),
{
}

/// A pause keeps the place, and playing goes on from it; playing at the end begins again.
pub proof fn law_pause_keeps_the_place(at_end: bool)
    ensures
        !step_of(PlaybackState::Playing, Action::Pause, at_end).rewind,
        step_of(
            step_of(PlaybackState::Playing, Action::Pause, at_end).state,
            Action::Play,
            false,
        ) == (Step { state: PlaybackState::Playing, rewind: false, sync: false }),
        step_of(PlaybackState::Stopped, Action::Play, true).rewind,
{
}

} // verus!

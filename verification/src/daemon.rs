//! Decision core of the hotkey sentinel: a small state machine that turns
//! key events into mount and unmount decisions.
//!
//! The surrounding daemon listens for raw key events and performs the
//! actual mount work; every decision it takes comes from here.

use vstd::prelude::*;

verus! {

/// Whether the vault is currently presented as a drive.
#[derive(Debug, Clone, Copy, PartialEq, Eq, Structural)]
pub enum VaultState {
    Locked,
    Mounted,
}

/// The keys the sentinel distinguishes.
#[derive(Debug, Clone, Copy, PartialEq, Eq, Structural)]
pub enum SentinelKey {
    ControlKey,
    AltKey,
    RightBracket,
    Other,
}

/// A raw key transition.
#[derive(Debug, Clone, Copy, PartialEq, Eq, Structural)]
pub enum SentinelEvent {
    Press(SentinelKey),
    Release(SentinelKey),
}

/// What the daemon should do next.
#[derive(Debug, Clone, Copy, PartialEq, Eq, Structural)]
pub enum MountAction {
    Mount,
    Unmount,
}

/// The sentinel's state: the vault state and which modifiers are held.
#[derive(Debug, Clone, Copy, PartialEq, Eq, Structural)]
pub struct AppState {
    pub vault_state: VaultState,
    pub ctrl_pressed: bool,
    pub alt_pressed: bool,
}

impl AppState {
    /// The initial state: locked, no modifiers held.
    pub fn new() -> (r: Self)
        ensures
            r.vault_state == VaultState::Locked,
            !r.ctrl_pressed,
            !r.alt_pressed,
    {
        AppState { vault_state: VaultState::Locked, ctrl_pressed: false, alt_pressed: false }
    }
}

/// Feeds one key event into the state machine. Returns whether the toggle
/// chord fired: the closing bracket pressed while both modifiers are held.
pub fn handle_event(state: &mut AppState, event: SentinelEvent) -> (trigger: bool)
    ensures
        final (state).vault_state == old(state).vault_state,
        match event {
            SentinelEvent::Press(SentinelKey::ControlKey) => {
                &&& final (state).ctrl_pressed
                &&& final (state).alt_pressed == old(state).alt_pressed
                &&& !trigger
            },
            SentinelEvent::Press(SentinelKey::AltKey) => {
                &&& final (state).alt_pressed
                &&& final (state).ctrl_pressed == old(state).ctrl_pressed
                &&& !trigger
            },
            SentinelEvent::Press(SentinelKey::RightBracket) => *final (state) == *old(state)
                && trigger == (old(state).ctrl_pressed && old(state).alt_pressed),
            SentinelEvent::Press(SentinelKey::Other) => *final (state) == *old(state) && !trigger,
            SentinelEvent::Release(SentinelKey::ControlKey) => {
                &&& !final (state).ctrl_pressed
                &&& final (state).alt_pressed == old(state).alt_pressed
                &&& !trigger
            },
            SentinelEvent::Release(SentinelKey::AltKey) => {
                &&& !final (state).alt_pressed
                &&& final (state).ctrl_pressed == old(state).ctrl_pressed
                &&& !trigger
            },
            SentinelEvent::Release(_) => *final (state) == *old(state) && !trigger,
        },
{
    match event {
        SentinelEvent::Press(SentinelKey::ControlKey) => {
            state.ctrl_pressed = true;
            false
        },
        SentinelEvent::Press(SentinelKey::AltKey) => {
            state.alt_pressed = true;
            false
        },
        SentinelEvent::Press(SentinelKey::RightBracket) => state.ctrl_pressed
            && state.alt_pressed,
        SentinelEvent::Press(SentinelKey::Other) => false,
        SentinelEvent::Release(SentinelKey::ControlKey) => {
            state.ctrl_pressed = false;
            false
        },
        SentinelEvent::Release(SentinelKey::AltKey) => {
            state.alt_pressed = false;
            false
        },
        SentinelEvent::Release(_) => false,
    }
}

/// The action a fired toggle asks for: mount when locked, unmount when
/// mounted.
pub fn toggle_vault(state: &AppState) -> (r: MountAction)
    ensures
        state.vault_state == VaultState::Locked ==> r == MountAction::Mount,
        state.vault_state == VaultState::Mounted ==> r == MountAction::Unmount,
{
    match state.vault_state {
        VaultState::Locked => MountAction::Mount,
        VaultState::Mounted => MountAction::Unmount,
    }
}

/// Records the outcome of the attempted action: a successful mount makes
/// the vault mounted; a failed mount leaves it locked; an unmount always
/// locks.
pub fn complete_toggle(state: &mut AppState, mount_ok: bool)
    ensures
        final (state).ctrl_pressed == old(state).ctrl_pressed,
        final (state).alt_pressed == old(state).alt_pressed,
        final (state).vault_state == (match old(state).vault_state {
            VaultState::Locked => if mount_ok {
                VaultState::Mounted
            } else {
                VaultState::Locked
            },
            VaultState::Mounted => VaultState::Locked,
        }),
{
    match state.vault_state {
        VaultState::Locked => {
            if mount_ok {
                state.vault_state = VaultState::Mounted;
            }
        },
        VaultState::Mounted => {
            state.vault_state = VaultState::Locked;
        },
    }
}

} // verus!

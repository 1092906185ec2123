//! Input devices, contexts, actions and the bindings that map physical
//! inputs onto actions.
use std::collections::HashMap;
use vstd::prelude::*;

pub mod bindings;
pub mod detect;
pub mod loader;
pub mod menu_nav;

use crate::inputs::bindings::InputMode;

verus! {

/// The device the player used most recently.
#[derive(Debug, Clone, Copy, PartialEq, Eq, Structural, Hash)]
pub enum ActiveInputDevice {
    Keyboard,
    Gamepad,
}

impl Default for ActiveInputDevice {
    fn default() -> (d: Self)
        ensures
            d == ActiveInputDevice::Keyboard,
    {
        ActiveInputDevice::Keyboard
    }
}

/// The gamepad whose inputs are translated, by entity id.
#[derive(Debug, Clone, Copy, PartialEq, Eq, Structural, Default)]
pub struct ActiveGamepad(pub Option<u64>);

/// Which family of actions the bindings may currently produce.
#[derive(Debug, Clone, Copy, PartialEq, Eq, Structural, Hash)]
pub enum InputContext {
    Game,
    Menu,
}

impl Default for InputContext {
    fn default() -> (c: Self)
        ensures
            c == InputContext::Game,
    {
        InputContext::Game
    }
}

/// Everything a binding can produce.
#[derive(Debug, Clone, Copy, PartialEq, Eq, Structural, Hash)]
pub enum Action {
    Player(PlayerAction),
    Menu(MenuAction),
}

/// Actions that drive the player character.
#[derive(Debug, Clone, Copy, PartialEq, Eq, Structural, Hash)]
pub enum PlayerAction {
    MoveForward,
    MoveBack,
    MoveLeft,
    MoveRight,
    LookUp,
    LookLeft,
    LookRight,
    LookDown,
    Jump,
    JumpHeld,
    Interact,
    Pause,
}

/// Actions that drive menu navigation.
#[derive(Debug, Clone, Copy, PartialEq, Eq, Structural, Hash)]
pub enum MenuAction {
    Up,
    Down,
    Left,
    Right,
    Select,
    Back,
    Unpause,
}

/// The half of an analog axis a binding listens to.
#[derive(Debug, Clone, Copy, PartialEq, Eq, Structural, Hash)]
pub enum AxisDirection {
    Positive,
    Negative,
}

/// The strength attached to an emitted action.
#[derive(Debug, Clone, Copy, PartialEq, Eq, Structural)]
pub enum ActionValue {
    /// Full strength (1.0).
    Full,
    /// The share of a timed hold that is left: `1 - (now - since) / max_duration`,
    /// all three in microseconds.
    HoldRemaining { since: u64, now: u64, max_duration: u64 },
    /// An axis deflection magnitude, in millionths of full deflection.
    Magnitude(u32),
}

/// One action emitted by the bindings in a frame.
#[derive(Debug, Clone, Copy, PartialEq, Eq, Structural)]
pub struct ActionEvent {
    pub action: Action,
    pub value: ActionValue,
}

/// Per-input bookkeeping that lives across frames.
///
/// `hold_start` and `gamepad_hold_start` map a key or button code to the time
/// (microseconds) at which its timed hold began; `axis_triggered` holds the
/// axis keys (see `bindings::axis_key`) that have fired while in a menu and
/// have not yet returned to the dead zone.
pub struct InputHoldState {
    pub hold_start: HashMap<u64, u64>,
    pub gamepad_hold_start: HashMap<u64, u64>,
    pub axis_triggered: HashMap<u64, bool>,
}

impl Default for InputHoldState {
    fn default() -> (s: Self)
        ensures
            s.hold_start@ == Map::<u64, u64>::empty(),
            s.gamepad_hold_start@ == Map::<u64, u64>::empty(),
            s.axis_triggered@ == Map::<u64, bool>::empty(),
    {
        InputHoldState {
            hold_start: HashMap::new(),
            gamepad_hold_start: HashMap::new(),
            axis_triggered: HashMap::new(),
        }
    }
}

/// The full binding table: keyboard keys and gamepad buttons by code, each
/// with an action and a mode, and gamepad axes by code with a direction.
pub struct InputBindings {
    pub keyboard: Vec<(u64, Action, InputMode)>,
    pub gamepad_buttons: Vec<(u64, Action, InputMode)>,
    pub gamepad_axes: Vec<(u32, AxisDirection, Action)>,
}

impl Default for InputBindings {
    fn default() -> (b: Self)
        ensures
            b.keyboard@ == Seq::<(u64, Action, InputMode)>::empty(),
            b.gamepad_buttons@ == Seq::<(u64, Action, InputMode)>::empty(),
            b.gamepad_axes@ == Seq::<(u32, AxisDirection, Action)>::empty(),
    {
        InputBindings { keyboard: Vec::new(), gamepad_buttons: Vec::new(), gamepad_axes: Vec::new() }
    }
}

} // verus!

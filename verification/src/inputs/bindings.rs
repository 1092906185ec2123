//! Translation of raw device state into actions, per binding mode.
use std::collections::HashMap;
use vstd::prelude::*;

use crate::inputs::{
    Action, ActionEvent, ActionValue, AxisDirection, InputBindings, InputContext, InputHoldState,
    MenuAction, PlayerAction,
};

verus! {

broadcast use vstd::std_specs::hash::group_hash_axioms, vstd::seq_lib::group_seq_properties;

/// How a digital binding turns key state into actions. Durations are in microseconds.
#[derive(Debug, Clone, Copy, PartialEq, Eq, Structural)]
pub enum InputMode {
    Held,
    JustPressed,
    HeldTimed { max_duration: u64 },
    RepeatOnHold { initial_delay: u64, repeat_interval: u64 },
}

/// The digital inputs of one device during one frame, as lists of codes.
pub struct ButtonSnapshot {
    pub just_pressed: Vec<u64>,
    pub pressed: Vec<u64>,
    pub just_released: Vec<u64>,
}

/// An axis must pass this deflection (millionths) to count as pushed.
pub const AXIS_THRESHOLD: i32 = 200_000;

/// Below this magnitude (millionths) an axis counts as centred.
pub const AXIS_DEADZONE: u32 = 50_000;

/// A repeat fires when the time since the last repeat point is within this
/// many microseconds of a full repeat interval.
pub const REPEAT_TOLERANCE: u64 = 1000;

/// Whether `action` may be produced in `context`: the game context rejects
/// menu actions and the menu context rejects player actions.
pub open spec fn action_allowed(context: InputContext, action: Action) -> bool {
    match context {
        InputContext::Game => !(action is Menu),
        InputContext::Menu => !(action is Player),
    }
}

/// An action at full strength.
pub open spec fn full(action: Action) -> ActionEvent {
    ActionEvent { action, value: ActionValue::Full }
}

/// Whether a hold that began at `start` is still shorter than `max_duration` at `now`.
pub open spec fn hold_within(start: u64, now: u64, max_duration: u64) -> bool {
    now - start < max_duration
}

/// Whether a repeating hold that began at `start` fires at `now`: the hold is
/// past `initial_delay`, and the time since the last whole repeat interval is
/// at least the interval less `REPEAT_TOLERANCE` (always, for a zero interval).
pub open spec fn repeat_due(start: u64, now: u64, initial_delay: u64, repeat_interval: u64) -> bool {
    let held: int = now - start;
    &&& held > initial_delay
    &&& (repeat_interval == 0 || (held - initial_delay) % (repeat_interval as int)
        >= repeat_interval - REPEAT_TOLERANCE)
}

/// One frame of a timed-hold binding: returns the new hold map and the events.
/// The jump-hold report is produced only where `context` allows player actions.
pub open spec fn held_timed_step(
    context: InputContext,
    hold: Map<u64, u64>,
    key: u64,
    max_duration: u64,
    just_pressed: bool,
    pressed: bool,
    just_released: bool,
    action: Action,
    elapsed: u64,
) -> (Map<u64, u64>, Seq<ActionEvent>) {
    let m1 = if just_pressed { hold.insert(key, elapsed) } else { hold };
    let e1 = if just_pressed { seq![full(action)] } else { Seq::<ActionEvent>::empty() };
    let e2 = if pressed && action_allowed(context, Action::Player(PlayerAction::JumpHeld))
        && m1.contains_key(key) && hold_within(m1[key], elapsed, max_duration) {
        seq![
            ActionEvent {
                action: Action::Player(PlayerAction::JumpHeld),
                value: ActionValue::HoldRemaining { since: m1[key], now: elapsed, max_duration },
            },
        ]
    } else {
        Seq::<ActionEvent>::empty()
    };
    let m2 = if just_released { m1.remove(key) } else { m1 };
    (m2, e1 + e2)
}

/// One frame of a repeat-on-hold binding: returns the new hold map and the events.
pub open spec fn repeat_step(
    hold: Map<u64, u64>,
    key: u64,
    initial_delay: u64,
    repeat_interval: u64,
    just_pressed: bool,
    pressed: bool,
    just_released: bool,
    action: Action,
    elapsed: u64,
) -> (Map<u64, u64>, Seq<ActionEvent>) {
    let m1 = if just_pressed { hold.insert(key, elapsed) } else { hold };
    let e1 = if just_pressed { seq![full(action)] } else { Seq::<ActionEvent>::empty() };
    let e2 = if pressed && m1.contains_key(key) && repeat_due(
        m1[key],
        elapsed,
        initial_delay,
        repeat_interval,
    ) {
        seq![full(action)]
    } else {
        Seq::<ActionEvent>::empty()
    };
    let m2 = if just_released { m1.remove(key) } else { m1 };
    (m2, e1 + e2)
}

/// One frame of one digital binding against a device snapshot.
pub open spec fn digital_step(
    context: InputContext,
    hold: Map<u64, u64>,
    snap: ButtonSnapshot,
    elapsed: u64,
    binding: (u64, Action, InputMode),
) -> (Map<u64, u64>, Seq<ActionEvent>) {
    let key = binding.0;
    let action = binding.1;
    let jp = snap.just_pressed@.contains(key);
    let p = snap.pressed@.contains(key);
    let jr = snap.just_released@.contains(key);
    match binding.2 {
        InputMode::Held => (hold, if p { seq![full(action)] } else { Seq::empty() }),
        InputMode::JustPressed => (hold, if jp { seq![full(action)] } else { Seq::empty() }),
        InputMode::HeldTimed { max_duration } => held_timed_step(
            context,
            hold,
            key,
            max_duration,
            jp,
            p,
            jr,
            action,
            elapsed,
        ),
        InputMode::RepeatOnHold { initial_delay, repeat_interval } => repeat_step(
            hold,
            key,
            initial_delay,
            repeat_interval,
            jp,
            p,
            jr,
            action,
            elapsed,
        ),
    }
}

/// All digital bindings, in order, threading the hold map through.
pub open spec fn digital_frame(
    context: InputContext,
    hold: Map<u64, u64>,
    snap: ButtonSnapshot,
    elapsed: u64,
    bindings: Seq<(u64, Action, InputMode)>,
) -> (Map<u64, u64>, Seq<ActionEvent>)
    decreases bindings.len(),
{
    if bindings.len() == 0 {
        (hold, Seq::empty())
    } else {
        let prev = digital_frame(context, hold, snap, elapsed, bindings.drop_last());
        let step = digital_step(context, prev.0, snap, elapsed, bindings.last());
        (step.0, prev.1 + step.1)
    }
}

/// The key under which an axis half is remembered as triggered.
pub open spec fn spec_axis_key(axis: u32, direction: AxisDirection) -> u64 {
    (axis as u64 * 2 + match direction {
        AxisDirection::Positive => 0u64,
        AxisDirection::Negative => 1u64,
    }) as u64
}

/// Whether a reading pushes past the threshold in the bound direction.
pub open spec fn axis_above(direction: AxisDirection, value: i32) -> bool {
    match direction {
        AxisDirection::Positive => value > AXIS_THRESHOLD,
        AxisDirection::Negative => value < -AXIS_THRESHOLD,
    }
}

/// The magnitude of a reading.
pub open spec fn magnitude(value: i32) -> u32 {
    if value < 0 {
        (-value) as u32
    } else {
        value as u32
    }
}

/// One frame of one axis binding. In a menu an axis fires once per push and
/// re-arms only after returning to the dead zone; in the game it fires every
/// frame it is pushed.
pub open spec fn axis_step(
    triggered: Map<u64, bool>,
    is_menu: bool,
    binding: (u32, AxisDirection, Action),
    reading: Option<i32>,
) -> (Map<u64, bool>, Seq<ActionEvent>) {
    match reading {
        None => (triggered, Seq::empty()),
        Some(v) => {
            let ev = ActionEvent { action: binding.2, value: ActionValue::Magnitude(magnitude(v)) };
            if is_menu {
                let key = spec_axis_key(binding.0, binding.1);
                let was = triggered.contains_key(key) && triggered[key];
                let fire = axis_above(binding.1, v) && !was;
                let m1 = if fire { triggered.insert(key, true) } else { triggered };
                let m2 = if magnitude(v) < AXIS_DEADZONE { m1.remove(key) } else { m1 };
                (m2, if fire { seq![ev] } else { Seq::empty() })
            } else {
                (triggered, if axis_above(binding.1, v) { seq![ev] } else { Seq::empty() })
            }
        },
    }
}

/// All axis bindings allowed in `context`, in order, each with its reading.
pub open spec fn axes_frame(
    context: InputContext,
    triggered: Map<u64, bool>,
    bindings: Seq<(u32, AxisDirection, Action)>,
    readings: Seq<Option<i32>>,
) -> (Map<u64, bool>, Seq<ActionEvent>)
    decreases bindings.len(),
{
    if bindings.len() == 0 {
        (triggered, Seq::empty())
    } else {
        let n: int = bindings.len() - 1;
        let prev = axes_frame(context, triggered, bindings.drop_last(), readings.take(n));
        if action_allowed(context, bindings.last().2) {
            let step = axis_step(prev.0, context == InputContext::Menu, bindings.last(), readings[n]);
            (step.0, prev.1 + step.1)
        } else {
            prev
        }
    }
}

/// Whether `action` may be produced in `context`.
pub fn binding_allowed(context: InputContext, action: Action) -> (r: bool)
    ensures
        r == action_allowed(context, action),
{
    match context {
        InputContext::Game => !matches!(action, Action::Menu(_)),
        InputContext::Menu => !matches!(action, Action::Player(_)),
    }
}

/// The digital bindings whose action is allowed in `context`, in their order.
pub fn filter_digital_bindings(context: InputContext, bindings: &Vec<(u64, Action, InputMode)>) -> (r:
    Vec<(u64, Action, InputMode)>)
    ensures
        r@ == bindings@.filter(|b: (u64, Action, InputMode)| action_allowed(context, b.1)),
{
    let ghost pred = |b: (u64, Action, InputMode)| action_allowed(context, b.1);
    let mut r: Vec<(u64, Action, InputMode)> = Vec::new();
    let mut i: usize = 0;
    while i < bindings.len()
        invariant
            i <= bindings.len(),
            pred == (|b: (u64, Action, InputMode)| action_allowed(context, b.1)),
            r@ == bindings@.take(i as int).filter(pred),
        decreases bindings.len() - i,
    {
        let b = bindings[i];
        proof {
            assert(bindings@.take(i + 1) == bindings@.take(i as int).push(b));
            bindings@.take(i as int).lemma_filter_push(b, pred);
        }
        if binding_allowed(context, b.1) {
            r.push(b);
        }
        i += 1;
    }
    proof {
        assert(bindings@.take(bindings.len() as int) == bindings@);
    }
    r
}

/// Whether `code` occurs in `codes`.
pub fn contains_code(codes: &Vec<u64>, code: u64) -> (r: bool)
    ensures
        r == codes@.contains(code),
{
    let mut i: usize = 0;
    while i < codes.len()
        invariant
            i <= codes.len(),
            forall|j: int| 0 <= j < i ==> codes@[j] != code,
        decreases codes.len() - i,
    {
        if codes[i] == code {
            return true;
        }
        i += 1;
    }
    false
}

/// Looks up the start of a hold.
fn hold_start_of(hold_map: &HashMap<u64, u64>, key: u64) -> (r: Option<u64>)
    ensures
        r == (if hold_map@.contains_key(key) {
            Some(hold_map@[key])
        } else {
            None
        }),
{
    match hold_map.get(&key) {
        Some(v) => Some(*v),
        None => None,
    }
}

/// One frame of a timed-hold binding: a press starts the hold clock and
/// emits the action, every held frame within `max_duration` emits the
/// jump-hold action with the share of the duration that is left (where
/// `context` allows player actions), and a release clears the clock.
pub fn process_held_timed(
    context: InputContext,
    key: u64,
    max_duration: u64,
    just_pressed: bool,
    pressed: bool,
    just_released: bool,
    hold_map: &mut HashMap<u64, u64>,
    action: Action,
    elapsed: u64,
    action_events: &mut Vec<ActionEvent>,
)
    ensures
        ({
            let s = held_timed_step(
                context,
                old(hold_map)@,
                key,
                max_duration,
                just_pressed,
                pressed,
                just_released,
                action,
                elapsed,
            );
            &&& final(hold_map)@ == s.0
            &&& final(action_events)@ == old(action_events)@ + s.1
        }),
{
    let ghost e0 = action_events@;
    if just_pressed {
        hold_map.insert(key, elapsed);
        action_events.push(ActionEvent { action, value: ActionValue::Full });
    }
    let ghost e1 = action_events@;
    if pressed && binding_allowed(context, Action::Player(PlayerAction::JumpHeld)) {
        if let Some(start) = hold_start_of(hold_map, key) {
            if elapsed < start || elapsed - start < max_duration {
                action_events.push(
                    ActionEvent {
                        action: Action::Player(PlayerAction::JumpHeld),
                        value: ActionValue::HoldRemaining { since: start, now: elapsed, max_duration },
                    },
                );
            }
        }
    }
    let ghost e2 = action_events@;
    if just_released {
        hold_map.remove(&key);
    }
    proof {
        let s = held_timed_step(
            context,
            old(hold_map)@,
            key,
            max_duration,
            just_pressed,
            pressed,
            just_released,
            action,
            elapsed,
        );
        assert(e1 == e0 + (if just_pressed { seq![full(action)] } else { Seq::<ActionEvent>::empty() }));
        assert(action_events@ == e0 + s.1);
    }
}

/// Whether a repeating hold fires now; see `repeat_due`.
fn repeat_fires(start: u64, elapsed: u64, initial_delay: u64, repeat_interval: u64) -> (r: bool)
    ensures
        r == repeat_due(start, elapsed, initial_delay, repeat_interval),
{
    if elapsed < start {
        return false;
    }
    let held: u64 = elapsed - start;
    if held <= initial_delay {
        return false;
    }
    if repeat_interval == 0 {
        return true;
    }
    let since_last: u64 = (held - initial_delay) % repeat_interval;
    if repeat_interval <= REPEAT_TOLERANCE {
        true
    } else {
        since_last >= repeat_interval - REPEAT_TOLERANCE
    }
}

/// One frame of a repeat-on-hold binding: a press starts the hold clock and
/// emits the action, and while held past `initial_delay` the action repeats
/// at the end of every `repeat_interval`; a release clears the clock.
pub fn process_repeat_on_hold(
    key: u64,
    initial_delay: u64,
    repeat_interval: u64,
    just_pressed: bool,
    pressed: bool,
    just_released: bool,
    hold_map: &mut HashMap<u64, u64>,
    action: Action,
    elapsed: u64,
    action_events: &mut Vec<ActionEvent>,
)
    ensures
        ({
            let s = repeat_step(
                old(hold_map)@,
                key,
                initial_delay,
                repeat_interval,
                just_pressed,
                pressed,
                just_released,
                action,
                elapsed,
            );
            &&& final(hold_map)@ == s.0
            &&& final(action_events)@ == old(action_events)@ + s.1
        }),
{
    let ghost e0 = action_events@;
    if just_pressed {
        hold_map.insert(key, elapsed);
        action_events.push(ActionEvent { action, value: ActionValue::Full });
    }
    let ghost e1 = action_events@;
    if pressed {
        if let Some(start) = hold_start_of(hold_map, key) {
            if repeat_fires(start, elapsed, initial_delay, repeat_interval) {
                action_events.push(ActionEvent { action, value: ActionValue::Full });
            }
        }
    }
    if just_released {
        hold_map.remove(&key);
    }
    proof {
        let s = repeat_step(
            old(hold_map)@,
            key,
            initial_delay,
            repeat_interval,
            just_pressed,
            pressed,
            just_released,
            action,
            elapsed,
        );
        assert(e1 == e0 + (if just_pressed { seq![full(action)] } else { Seq::<ActionEvent>::empty() }));
        assert(action_events@ == e0 + s.1);
    }
}

/// Runs every binding, in order, against the snapshot of one device,
/// appending the emitted actions to `action_events`.
pub fn process_digital_bindings(
    context: InputContext,
    bindings: &Vec<(u64, Action, InputMode)>,
    snapshot: &ButtonSnapshot,
    hold_map: &mut HashMap<u64, u64>,
    elapsed: u64,
    action_events: &mut Vec<ActionEvent>,
)
    ensures
        ({
            let f = digital_frame(context, old(hold_map)@, *snapshot, elapsed, bindings@);
            &&& final(hold_map)@ == f.0
            &&& final(action_events)@ == old(action_events)@ + f.1
        }),
{
    let ghost e0 = action_events@;
    let mut i: usize = 0;
    while i < bindings.len()
        invariant
            i <= bindings.len(),
            ({
                let f = digital_frame(context, old(hold_map)@, *snapshot, elapsed, bindings@.take(i as int));
                &&& hold_map@ == f.0
                &&& action_events@ == e0 + f.1
            }),
        decreases bindings.len() - i,
    {
        let (key, action, mode) = bindings[i];
        let ghost before = action_events@;
        proof {
            assert(bindings@.take(i + 1).drop_last() == bindings@.take(i as int));
        }
        match mode {
            InputMode::Held => {
                if contains_code(&snapshot.pressed, key) {
                    action_events.push(ActionEvent { action, value: ActionValue::Full });
                }
            },
            InputMode::JustPressed => {
                if contains_code(&snapshot.just_pressed, key) {
                    action_events.push(ActionEvent { action, value: ActionValue::Full });
                }
            },
            InputMode::HeldTimed { max_duration } => {
                let jp = contains_code(&snapshot.just_pressed, key);
                let p = contains_code(&snapshot.pressed, key);
                let jr = contains_code(&snapshot.just_released, key);
                process_held_timed(
                    context,
                    key,
                    max_duration,
                    jp,
                    p,
                    jr,
                    hold_map,
                    action,
                    elapsed,
                    action_events,
                );
            },
            InputMode::RepeatOnHold { initial_delay, repeat_interval } => {
                let jp = contains_code(&snapshot.just_pressed, key);
                let p = contains_code(&snapshot.pressed, key);
                let jr = contains_code(&snapshot.just_released, key);
                process_repeat_on_hold(
                    key,
                    initial_delay,
                    repeat_interval,
                    jp,
                    p,
                    jr,
                    hold_map,
                    action,
                    elapsed,
                    action_events,
                );
            },
        }
        proof {
            let prev = digital_frame(context, old(hold_map)@, *snapshot, elapsed, bindings@.take(i as int));
            let st = digital_step(context, prev.0, *snapshot, elapsed, bindings@[i as int]);
            assert(action_events@ == before + st.1);
            assert(e0 + prev.1 + st.1 == e0 + (prev.1 + st.1));
        }
        i += 1;
    }
    proof {
        assert(bindings@.take(bindings.len() as int) == bindings@);
    }
}

/// The key under which an axis half is remembered as triggered.
pub fn axis_key(axis: u32, direction: AxisDirection) -> (r: u64)
    ensures
        r == spec_axis_key(axis, direction),
{
    let d: u64 = match direction {
        AxisDirection::Positive => 0,
        AxisDirection::Negative => 1,
    };
    axis as u64 * 2 + d
}

/// The magnitude of a reading.
pub fn reading_magnitude(value: i32) -> (r: u32)
    ensures
        r == magnitude(value),
{
    if value < 0 {
        (0i64 - value as i64) as u32
    } else {
        value as u32
    }
}

/// Runs the axis bindings allowed in `context`, in order, each against the
/// reading at the same position in `readings`, appending the emitted actions.
pub fn process_axis_bindings(
    context: InputContext,
    bindings: &Vec<(u32, AxisDirection, Action)>,
    readings: &Vec<Option<i32>>,
    triggered: &mut HashMap<u64, bool>,
    action_events: &mut Vec<ActionEvent>,
)
    requires
        readings.len() == bindings.len(),
    ensures
        ({
            let f = axes_frame(context, old(triggered)@, bindings@, readings@);
            &&& final(triggered)@ == f.0
            &&& final(action_events)@ == old(action_events)@ + f.1
        }),
{
    let ghost e0 = action_events@;
    let is_menu = context == InputContext::Menu;
    let mut i: usize = 0;
    while i < bindings.len()
        invariant
            i <= bindings.len(),
            readings.len() == bindings.len(),
            is_menu == (context == InputContext::Menu),
            ({
                let f = axes_frame(
                    context,
                    old(triggered)@,
                    bindings@.take(i as int),
                    readings@.take(i as int),
                );
                &&& triggered@ == f.0
                &&& action_events@ == e0 + f.1
            }),
        decreases bindings.len() - i,
    {
        let (axis, dir, action) = bindings[i];
        let ghost before = action_events@;
        let ghost prev = axes_frame(
            context,
            old(triggered)@,
            bindings@.take(i as int),
            readings@.take(i as int),
        );
        proof {
            assert(bindings@.take(i + 1).drop_last() == bindings@.take(i as int));
            assert(readings@.take(i + 1).take(i as int) == readings@.take(i as int));
        }
        if binding_allowed(context, action) {
            if let Some(value) = readings[i] {
                let above = match dir {
                    AxisDirection::Positive => value > AXIS_THRESHOLD,
                    AxisDirection::Negative => value < -AXIS_THRESHOLD,
                };
                let mag: u32 = reading_magnitude(value);
                if is_menu {
                    let key = axis_key(axis, dir);
                    let was_triggered = match triggered.get(&key) {
                        Some(b) => *b,
                        None => false,
                    };
                    if above && !was_triggered {
                        action_events.push(ActionEvent { action, value: ActionValue::Magnitude(mag) });
                        triggered.insert(key, true);
                    }
                    if mag < AXIS_DEADZONE {
                        triggered.remove(&key);
                    }
                } else {
                    if above {
                        action_events.push(ActionEvent { action, value: ActionValue::Magnitude(mag) });
                    }
                }
            }
            proof {
                let st = axis_step(prev.0, is_menu, bindings@[i as int], readings@[i as int]);
                assert(action_events@ == before + st.1);
                assert(e0 + prev.1 + st.1 == e0 + (prev.1 + st.1));
            }
        }
        i += 1;
    }
    proof {
        assert(bindings@.take(bindings.len() as int) == bindings@);
        assert(readings@.take(readings.len() as int) == readings@);
    }
}

/// The keyboard bindings allowed in `context`, processed against this frame's keys.
pub fn translate_keyboard(
    context: InputContext,
    bindings: &InputBindings,
    keys: &ButtonSnapshot,
    hold_state: &mut InputHoldState,
    elapsed: u64,
) -> (events: Vec<ActionEvent>)
    ensures
        ({
            let f = digital_frame(
                context,
                old(hold_state).hold_start@,
                *keys,
                elapsed,
                bindings.keyboard@.filter(
                    |b: (u64, Action, InputMode)| action_allowed(context, b.1),
                ),
            );
            &&& final(hold_state).hold_start@ == f.0
            &&& events@ == f.1
        }),
        final(hold_state).gamepad_hold_start@ == old(hold_state).gamepad_hold_start@,
        final(hold_state).axis_triggered@ == old(hold_state).axis_triggered@,
{
    let filtered = filter_digital_bindings(context, &bindings.keyboard);
    let mut events: Vec<ActionEvent> = Vec::new();
    process_digital_bindings(
        context,
        &filtered,
        keys,
        &mut hold_state.hold_start,
        elapsed,
        &mut events,
    );
    proof {
        assert(Seq::<ActionEvent>::empty() + events@ == events@);
    }
    events
}

/// The gamepad bindings allowed in `context`: first the buttons against this
/// frame's button state, then the axes against `axis_readings`, which holds
/// one reading per entry of `bindings.gamepad_axes`.
pub fn translate_gamepad(
    context: InputContext,
    bindings: &InputBindings,
    buttons: &ButtonSnapshot,
    axis_readings: &Vec<Option<i32>>,
    hold_state: &mut InputHoldState,
    elapsed: u64,
) -> (events: Vec<ActionEvent>)
    requires
        axis_readings.len() == bindings.gamepad_axes.len(),
    ensures
        ({
            let d = digital_frame(
                context,
                old(hold_state).gamepad_hold_start@,
                *buttons,
                elapsed,
                bindings.gamepad_buttons@.filter(
                    |b: (u64, Action, InputMode)| action_allowed(context, b.1),
                ),
            );
            let a = axes_frame(
                context,
                old(hold_state).axis_triggered@,
                bindings.gamepad_axes@,
                axis_readings@,
            );
            &&& final(hold_state).gamepad_hold_start@ == d.0
            &&& final(hold_state).axis_triggered@ == a.0
            &&& events@ == d.1 + a.1
        }),
        final(hold_state).hold_start@ == old(hold_state).hold_start@,
{
    let filtered = filter_digital_bindings(context, &bindings.gamepad_buttons);
    let mut events: Vec<ActionEvent> = Vec::new();
    process_digital_bindings(
        context,
        &filtered,
        buttons,
        &mut hold_state.gamepad_hold_start,
        elapsed,
        &mut events,
    );
    process_axis_bindings(
        context,
        &bindings.gamepad_axes,
        axis_readings,
        &mut hold_state.axis_triggered,
        &mut events,
    );
    proof {
        assert(Seq::<ActionEvent>::empty() + events@ == events@);
    }
    events
}

/// Whether a mode keeps a hold clock.
pub open spec fn is_timed(mode: InputMode) -> bool {
    mode is HeldTimed || mode is RepeatOnHold
}

/// Every event of a digital frame carries the action of one of its bindings,
/// or an action allowed in the context (the jump-hold report of a timed hold).
proof fn lemma_digital_event_sources(
    context: InputContext,
    hold: Map<u64, u64>,
    snap: ButtonSnapshot,
    elapsed: u64,
    bindings: Seq<(u64, Action, InputMode)>,
)
    ensures
        ({
            let evs = digital_frame(context, hold, snap, elapsed, bindings).1;
            forall|k: int|
                0 <= k < evs.len() ==> (exists|j: int|
                    0 <= j < bindings.len() && #[trigger] bindings[j].1 == evs[k].action)
                    || action_allowed(context, evs[k].action)
        }),
    decreases bindings.len(),
{
    if bindings.len() > 0 {
        let init = bindings.drop_last();
        lemma_digital_event_sources(context, hold, snap, elapsed, init);
        let prev = digital_frame(context, hold, snap, elapsed, init);
        let b = bindings.last();
        let st = digital_step(context, prev.0, snap, elapsed, b);
        let evs = digital_frame(context, hold, snap, elapsed, bindings).1;
        assert(evs == prev.1 + st.1);
        assert forall|k: int| 0 <= k < evs.len() implies (exists|j: int|
            0 <= j < bindings.len() && #[trigger] bindings[j].1 == evs[k].action)
            || action_allowed(context, evs[k].action) by {
            if k < prev.1.len() {
                assert(evs[k] == prev.1[k]);
                if !action_allowed(context, evs[k].action) {
                    let j = choose|j: int| 0 <= j < init.len() && #[trigger] init[j].1 == prev.1[k].action;
                    assert(bindings[j] == init[j]);
                }
            } else {
                assert(evs[k] == st.1[k - prev.1.len()]);
                assert(bindings[bindings.len() - 1] == b);
                assert(st.1[k - prev.1.len()].action == b.1 || action_allowed(
                    context,
                    st.1[k - prev.1.len()].action,
                ));
            }
        }
    }
}

/// Law: the digital bindings processed in a context (the keyboard, or the
/// gamepad buttons) emit only actions allowed there: no menu action in the
/// game, no player action in a menu.
pub proof fn law_digital_events_respect_context(
    context: InputContext,
    hold: Map<u64, u64>,
    snap: ButtonSnapshot,
    elapsed: u64,
    bindings: Seq<(u64, Action, InputMode)>,
)
    ensures
        ({
            let evs = digital_frame(
                context,
                hold,
                snap,
                elapsed,
                bindings.filter(|b: (u64, Action, InputMode)| action_allowed(context, b.1)),
            ).1;
            forall|k: int| 0 <= k < evs.len() ==> action_allowed(context, #[trigger] evs[k].action)
        }),
{
    let pred = |b: (u64, Action, InputMode)| action_allowed(context, b.1);
    let fs = bindings.filter(pred);
    lemma_digital_event_sources(context, hold, snap, elapsed, fs);
    let evs = digital_frame(context, hold, snap, elapsed, fs).1;
    assert forall|k: int| 0 <= k < evs.len() implies action_allowed(
        context,
        #[trigger] evs[k].action,
    ) by {
        if !action_allowed(context, evs[k].action) {
            let j = choose|j: int| 0 <= j < fs.len() && #[trigger] fs[j].1 == evs[k].action;
            bindings.lemma_filter_pred(pred, j);
        }
    }
}

/// Law: axis bindings emit only actions allowed in the context.
pub proof fn law_axis_events_respect_context(
    context: InputContext,
    triggered: Map<u64, bool>,
    bindings: Seq<(u32, AxisDirection, Action)>,
    readings: Seq<Option<i32>>,
)
    ensures
        ({
            let evs = axes_frame(context, triggered, bindings, readings).1;
            forall|k: int| 0 <= k < evs.len() ==> action_allowed(context, #[trigger] evs[k].action)
        }),
    decreases bindings.len(),
{
    if bindings.len() > 0 {
        let n: int = bindings.len() - 1;
        law_axis_events_respect_context(context, triggered, bindings.drop_last(), readings.take(n));
        let prev = axes_frame(context, triggered, bindings.drop_last(), readings.take(n));
        if action_allowed(context, bindings.last().2) {
            let st = axis_step(prev.0, context == InputContext::Menu, bindings.last(), readings[n]);
            let evs = axes_frame(context, triggered, bindings, readings).1;
            assert(evs == prev.1 + st.1);
            assert forall|k: int| 0 <= k < evs.len() implies action_allowed(
                context,
                #[trigger] evs[k].action,
            ) by {
                if k < prev.1.len() {
                    assert(evs[k] == prev.1[k]);
                } else {
                    assert(evs[k] == st.1[k - prev.1.len()]);
                }
            }
        }
    }
}

/// Law: an axis latch changes only through a binding that a menu context
/// allows and that is bound to that latch's axis half; bindings the context
/// refuses, and every binding in the game, leave it as it was.
pub proof fn law_axis_latch_untouched(
    context: InputContext,
    triggered: Map<u64, bool>,
    bindings: Seq<(u32, AxisDirection, Action)>,
    readings: Seq<Option<i32>>,
    key: u64,
)
    requires
        forall|j: int|
            0 <= j < bindings.len() ==> !(context == InputContext::Menu && action_allowed(
                context,
                #[trigger] bindings[j].2,
            ) && spec_axis_key(bindings[j].0, bindings[j].1) == key),
    ensures
        axes_frame(context, triggered, bindings, readings).0.contains_key(key)
            == triggered.contains_key(key),
        triggered.contains_key(key) ==> axes_frame(context, triggered, bindings, readings).0[key]
            == triggered[key],
    decreases bindings.len(),
{
    if bindings.len() > 0 {
        let n: int = bindings.len() - 1;
        let init = bindings.drop_last();
        assert forall|j: int| 0 <= j < init.len() implies !(context == InputContext::Menu
            && action_allowed(context, #[trigger] init[j].2) && spec_axis_key(init[j].0, init[j].1)
            == key) by {
            assert(init[j] == bindings[j]);
        }
        law_axis_latch_untouched(context, triggered, init, readings.take(n), key);
        assert(bindings[n] == bindings.last());
    }
}

/// Law: bindings without a timed mode never touch the hold clocks.
pub proof fn law_untimed_bindings_keep_clocks(
    context: InputContext,
    hold: Map<u64, u64>,
    snap: ButtonSnapshot,
    elapsed: u64,
    bindings: Seq<(u64, Action, InputMode)>,
)
    requires
        forall|j: int| 0 <= j < bindings.len() ==> !is_timed(#[trigger] bindings[j].2),
    ensures
        digital_frame(context, hold, snap, elapsed, bindings).0 == hold,
    decreases bindings.len(),
{
    if bindings.len() > 0 {
        let init = bindings.drop_last();
        assert forall|j: int| 0 <= j < init.len() implies !is_timed(#[trigger] init[j].2) by {
            assert(init[j] == bindings[j]);
        }
        law_untimed_bindings_keep_clocks(context, hold, snap, elapsed, init);
        assert(!is_timed(bindings[bindings.len() - 1].2));
    }
}

/// A binding on another key leaves the clock of `key` as it was.
proof fn lemma_step_keeps_other_clock(
    context: InputContext,
    hold: Map<u64, u64>,
    snap: ButtonSnapshot,
    elapsed: u64,
    b: (u64, Action, InputMode),
    key: u64,
)
    requires
        b.0 != key || !is_timed(b.2),
    ensures
        digital_step(context, hold, snap, elapsed, b).0.contains_key(key) == hold.contains_key(key),
        hold.contains_key(key) ==> digital_step(context, hold, snap, elapsed, b).0[key] == hold[key],
{
}

/// Law: a key released this frame has no running hold clock afterwards,
/// when some timed binding listens to it.
pub proof fn law_release_clears_clock(
    context: InputContext,
    hold: Map<u64, u64>,
    snap: ButtonSnapshot,
    elapsed: u64,
    bindings: Seq<(u64, Action, InputMode)>,
    key: u64,
)
    requires
        snap.just_released@.contains(key),
        exists|j: int| 0 <= j < bindings.len() && #[trigger] bindings[j].0 == key && is_timed(bindings[j].2),
    ensures
        !digital_frame(context, hold, snap, elapsed, bindings).0.contains_key(key),
    decreases bindings.len(),
{
    let init = bindings.drop_last();
    let b = bindings.last();
    let prev = digital_frame(context, hold, snap, elapsed, init);
    if !(b.0 == key && is_timed(b.2)) {
        let j = choose|j: int| 0 <= j < bindings.len() && #[trigger] bindings[j].0 == key && is_timed(bindings[j].2);
        assert(j != bindings.len() - 1);
        assert(init[j] == bindings[j]);
        law_release_clears_clock(context, hold, snap, elapsed, init, key);
        lemma_step_keeps_other_clock(context, prev.0, snap, elapsed, b, key);
    }
}

/// Law: a key pressed (and not released) this frame has its hold clock set
/// to the current time, when some timed binding listens to it.
pub proof fn law_press_starts_clock(
    context: InputContext,
    hold: Map<u64, u64>,
    snap: ButtonSnapshot,
    elapsed: u64,
    bindings: Seq<(u64, Action, InputMode)>,
    key: u64,
)
    requires
        snap.just_pressed@.contains(key),
        !snap.just_released@.contains(key),
        exists|j: int| 0 <= j < bindings.len() && #[trigger] bindings[j].0 == key && is_timed(bindings[j].2),
    ensures
        digital_frame(context, hold, snap, elapsed, bindings).0.contains_key(key),
        digital_frame(context, hold, snap, elapsed, bindings).0[key] == elapsed,
    decreases bindings.len(),
{
    let init = bindings.drop_last();
    let b = bindings.last();
    let prev = digital_frame(context, hold, snap, elapsed, init);
    if !(b.0 == key && is_timed(b.2)) {
        let j = choose|j: int| 0 <= j < bindings.len() && #[trigger] bindings[j].0 == key && is_timed(bindings[j].2);
        assert(j != bindings.len() - 1);
        assert(init[j] == bindings[j]);
        law_press_starts_clock(context, hold, snap, elapsed, init, key);
        lemma_step_keeps_other_clock(context, prev.0, snap, elapsed, b, key);
    }
}

/// Law: in a menu, holding an axis at the same reading never fires twice in
/// a row.
pub proof fn law_menu_axis_fires_once(
    triggered: Map<u64, bool>,
    binding: (u32, AxisDirection, Action),
    value: i32,
)
    ensures
        axis_step(axis_step(triggered, true, binding, Some(value)).0, true, binding, Some(value)).1.len()
            == 0,
{
}

/// Law: in a menu, an axis that returned to the dead zone fires again on
/// its next push.
pub proof fn law_menu_axis_rearms(
    triggered: Map<u64, bool>,
    binding: (u32, AxisDirection, Action),
    rest: i32,
    push: i32,
)
    requires
        magnitude(rest) < AXIS_DEADZONE,
        axis_above(binding.1, push),
    ensures
        axis_step(axis_step(triggered, true, binding, Some(rest)).0, true, binding, Some(push)).1.len()
            == 1,
{
}

/// Law: bindings that act on the key state alone emit, in binding order, one
/// full-strength action for each Held binding whose key is down and for each
/// JustPressed binding whose key went down this frame, and nothing else.
pub proof fn law_instant_bindings_follow_keys(
    context: InputContext,
    hold: Map<u64, u64>,
    snap: ButtonSnapshot,
    elapsed: u64,
    bindings: Seq<(u64, Action, InputMode)>,
)
    requires
        forall|j: int|
            0 <= j < bindings.len() ==> (#[trigger] bindings[j]).2 is Held || bindings[j].2 is JustPressed,
    ensures
        digital_frame(context, hold, snap, elapsed, bindings).1 == bindings.filter(
            |b: (u64, Action, InputMode)|
                if b.2 is Held {
                    snap.pressed@.contains(b.0)
                } else {
                    snap.just_pressed@.contains(b.0)
                },
        ).map_values(|b: (u64, Action, InputMode)| ActionEvent { action: b.1, value: ActionValue::Full }),
    decreases bindings.len(),
{
    let pred = |b: (u64, Action, InputMode)|
        if b.2 is Held {
            snap.pressed@.contains(b.0)
        } else {
            snap.just_pressed@.contains(b.0)
        };
    let mk = |b: (u64, Action, InputMode)| ActionEvent { action: b.1, value: ActionValue::Full };
    if bindings.len() == 0 {
        reveal(Seq::filter);
        assert(bindings.filter(pred).map_values(mk) =~= Seq::<ActionEvent>::empty());
    } else {
        let init = bindings.drop_last();
        let b = bindings.last();
        assert forall|j: int| 0 <= j < init.len() implies (#[trigger] init[j]).2 is Held
            || init[j].2 is JustPressed by {
            assert(init[j] == bindings[j]);
        }
        assert(bindings[bindings.len() - 1] == b);
        law_instant_bindings_follow_keys(context, hold, snap, elapsed, init);
        init.lemma_filter_push(b, pred);
        assert(init.push(b) == bindings);
        let fi = init.filter(pred);
        let prev = digital_frame(context, hold, snap, elapsed, init);
        let st = digital_step(context, prev.0, snap, elapsed, b);
        if pred(b) {
            assert(st.1 == seq![mk(b)]);
            assert(fi.push(b).map_values(mk) =~= fi.map_values(mk).push(mk(b)));
            assert(prev.1 + seq![mk(b)] =~= prev.1.push(mk(b)));
        } else {
            assert(st.1 =~= Seq::<ActionEvent>::empty());
            assert(prev.1 + st.1 =~= prev.1);
        }
    }
}

/// Law: a frame in which none of the bound keys is down or went down emits
/// nothing, whatever the bindings' modes and however long keys were held.
pub proof fn law_idle_keys_are_silent(
    context: InputContext,
    hold: Map<u64, u64>,
    snap: ButtonSnapshot,
    elapsed: u64,
    bindings: Seq<(u64, Action, InputMode)>,
)
    requires
        forall|j: int|
            0 <= j < bindings.len() ==> !snap.pressed@.contains((#[trigger] bindings[j]).0)
                && !snap.just_pressed@.contains(bindings[j].0),
    ensures
        digital_frame(context, hold, snap, elapsed, bindings).1.len() == 0,
    decreases bindings.len(),
{
    if bindings.len() > 0 {
        let init = bindings.drop_last();
        assert forall|j: int| 0 <= j < init.len() implies !snap.pressed@.contains(
            (#[trigger] init[j]).0,
        ) && !snap.just_pressed@.contains(init[j].0) by {
            assert(init[j] == bindings[j]);
        }
        assert(bindings[bindings.len() - 1] == bindings.last());
        law_idle_keys_are_silent(context, hold, snap, elapsed, init);
    }
}

/// Each axis binding beside its reading.
pub open spec fn with_readings(
    bindings: Seq<(u32, AxisDirection, Action)>,
    readings: Seq<Option<i32>>,
) -> Seq<((u32, AxisDirection, Action), Option<i32>)> {
    Seq::new(bindings.len(), |j: int| (bindings[j], readings[j]))
}

/// Law: in the game, the axis bindings emit, in binding order, one event for
/// each binding of a non-menu action whose reading is pushed past the
/// threshold in the binding's own direction (above it for Positive, below
/// its negative for Negative), carrying the reading's magnitude; readings
/// the other way, or missing, emit nothing.
pub proof fn law_game_axes_follow_direction(
    triggered: Map<u64, bool>,
    bindings: Seq<(u32, AxisDirection, Action)>,
    readings: Seq<Option<i32>>,
)
    requires
        readings.len() == bindings.len(),
    ensures
        axes_frame(InputContext::Game, triggered, bindings, readings).1 == with_readings(
            bindings,
            readings,
        ).filter(
            |p: ((u32, AxisDirection, Action), Option<i32>)|
                !(p.0.2 is Menu) && match p.1 {
                    Some(v) => match p.0.1 {
                        AxisDirection::Positive => v > AXIS_THRESHOLD,
                        AxisDirection::Negative => v < -AXIS_THRESHOLD,
                    },
                    None => false,
                },
        ).map_values(
            |p: ((u32, AxisDirection, Action), Option<i32>)|
                ActionEvent {
                    action: p.0.2,
                    value: ActionValue::Magnitude(
                        match p.1 {
                            Some(v) => (if v < 0 {
                                -v
                            } else {
                                v as int
                            }) as u32,
                            None => 0,
                        },
                    ),
                },
        ),
    decreases bindings.len(),
{
    let pred = |p: ((u32, AxisDirection, Action), Option<i32>)|
        !(p.0.2 is Menu) && match p.1 {
            Some(v) => match p.0.1 {
                AxisDirection::Positive => v > AXIS_THRESHOLD,
                AxisDirection::Negative => v < -AXIS_THRESHOLD,
            },
            None => false,
        };
    let mk = |p: ((u32, AxisDirection, Action), Option<i32>)|
        ActionEvent {
            action: p.0.2,
            value: ActionValue::Magnitude(
                match p.1 {
                    Some(v) => (if v < 0 {
                        -v
                    } else {
                        v as int
                    }) as u32,
                    None => 0,
                },
            ),
        };
    let ps = with_readings(bindings, readings);
    if bindings.len() == 0 {
        reveal(Seq::filter);
        assert(ps.filter(pred).map_values(mk) =~= Seq::<ActionEvent>::empty());
    } else {
        let n: int = bindings.len() - 1;
        let init = bindings.drop_last();
        let rs = readings.take(n);
        law_game_axes_follow_direction(triggered, init, rs);
        let pi = with_readings(init, rs);
        assert(pi =~= ps.drop_last());
        let last = ps[n];
        assert(ps =~= pi.push(last));
        pi.lemma_filter_push(last, pred);
        let fi = pi.filter(pred);
        let prev = axes_frame(InputContext::Game, triggered, init, rs);
        assert(prev.1 == fi.map_values(mk));
        assert(bindings.last() == bindings[n]);
        let b = bindings[n];
        let allowed = action_allowed(InputContext::Game, b.2);
        assert(allowed == !(b.2 is Menu));
        if allowed {
            let st = axis_step(prev.0, false, b, readings[n]);
            if pred(last) {
                assert(st.1 == seq![mk(last)]);
                assert(fi.push(last).map_values(mk) =~= fi.map_values(mk).push(mk(last)));
                assert(prev.1 + seq![mk(last)] =~= prev.1.push(mk(last)));
            } else {
                assert(st.1 =~= Seq::<ActionEvent>::empty());
                assert(prev.1 + st.1 =~= prev.1);
            }
        }
    }
}

/// Whether the axis event `e` is what binding `b` reports for reading `r`:
/// the reading is pushed past the threshold in the binding's own direction
/// and the event carries the binding's action and the reading's magnitude.
pub open spec fn reports_push(
    e: ActionEvent,
    b: (u32, AxisDirection, Action),
    r: Option<i32>,
) -> bool {
    match r {
        Some(v) => {
            &&& match b.1 {
                AxisDirection::Positive => v > AXIS_THRESHOLD,
                AxisDirection::Negative => v < -AXIS_THRESHOLD,
            }
            &&& e.action == b.2
            &&& e.value == ActionValue::Magnitude(
                (if v < 0 {
                    -v
                } else {
                    v as int
                }) as u32,
            )
        },
        None => false,
    }
}

/// Whether some binding allowed in `context` reports the push that the axis
/// event `e` carries.
pub open spec fn reported_by_some_binding(
    context: InputContext,
    bindings: Seq<(u32, AxisDirection, Action)>,
    readings: Seq<Option<i32>>,
    e: ActionEvent,
) -> bool {
    exists|j: int|
        0 <= j < bindings.len() && action_allowed(context, bindings[j].2) && #[trigger] reports_push(
            e,
            bindings[j],
            readings[j],
        )
}

/// Law: in either context, every axis event reports a binding allowed there
/// whose reading is pushed past the threshold in the binding's own
/// direction; a stick pushed the other way, or not far enough, reports
/// nothing for that binding.
pub proof fn law_axis_events_report_pushes(
    context: InputContext,
    triggered: Map<u64, bool>,
    bindings: Seq<(u32, AxisDirection, Action)>,
    readings: Seq<Option<i32>>,
)
    requires
        readings.len() == bindings.len(),
    ensures
        forall|k: int|
            0 <= k < axes_frame(context, triggered, bindings, readings).1.len()
                ==> reported_by_some_binding(
                context,
                bindings,
                readings,
                #[trigger] axes_frame(context, triggered, bindings, readings).1[k],
            ),
    decreases bindings.len(),
{
    if bindings.len() > 0 {
        let n: int = bindings.len() - 1;
        let init = bindings.drop_last();
        let rs = readings.take(n);
        law_axis_events_report_pushes(context, triggered, init, rs);
        let prev = axes_frame(context, triggered, init, rs);
        let evs = axes_frame(context, triggered, bindings, readings).1;
        assert(bindings.last() == bindings[n]);
        assert forall|k: int| 0 <= k < evs.len() implies reported_by_some_binding(
            context,
            bindings,
            readings,
            #[trigger] evs[k],
        ) by {
            if k < prev.1.len() {
                assert(evs[k] == prev.1[k]);
                assert(reported_by_some_binding(context, init, rs, prev.1[k]));
                let j = choose|j: int|
                    0 <= j < init.len() && action_allowed(context, init[j].2) && #[trigger] reports_push(
                        prev.1[k],
                        init[j],
                        rs[j],
                    );
                assert(init[j] == bindings[j] && rs[j] == readings[j]);
                assert(reports_push(evs[k], bindings[j], readings[j]));
            } else {
                if !action_allowed(context, bindings[n].2) {
                    assert(evs == prev.1);
                }
                let st = axis_step(prev.0, context == InputContext::Menu, bindings[n], readings[n]);
                assert(evs == prev.1 + st.1);
                assert(evs[k] == st.1[k - prev.1.len()]);
                assert(reports_push(evs[k], bindings[n], readings[n]));
            }
        }
    }
}

/// A frame of one binding is that binding's step.
proof fn lemma_single_binding_frame(
    context: InputContext,
    hold: Map<u64, u64>,
    snap: ButtonSnapshot,
    elapsed: u64,
    b: (u64, Action, InputMode),
)
    ensures
        digital_frame(context, hold, snap, elapsed, seq![b]) == digital_step(
            context,
            hold,
            snap,
            elapsed,
            b,
        ),
{
    let bs = seq![b];
    assert(bs.drop_last() =~= Seq::<(u64, Action, InputMode)>::empty());
    assert(bs.last() == b);
    assert(digital_frame(context, hold, snap, elapsed, bs.drop_last()).1 =~= Seq::<
        ActionEvent,
    >::empty());
    assert(Seq::<ActionEvent>::empty() + digital_step(context, hold, snap, elapsed, b).1
        =~= digital_step(context, hold, snap, elapsed, b).1);
}

/// Law: a timed-hold or repeat binding whose key goes down this frame emits
/// its own action at full strength first.
pub proof fn law_press_emits_action_first(
    context: InputContext,
    hold: Map<u64, u64>,
    snap: ButtonSnapshot,
    elapsed: u64,
    b: (u64, Action, InputMode),
)
    requires
        is_timed(b.2),
        snap.just_pressed@.contains(b.0),
    ensures
        digital_frame(context, hold, snap, elapsed, seq![b]).1.len() >= 1,
        digital_frame(context, hold, snap, elapsed, seq![b]).1[0] == (ActionEvent {
            action: b.1,
            value: ActionValue::Full,
        }),
{
    lemma_single_binding_frame(context, hold, snap, elapsed, b);
}

/// Law: while a timed-hold key stays down in the game (its clock started at
/// `start`, no new press this frame), the binding reports the jump hold with
/// that start and the current time exactly while the key has been held for
/// less than `max_duration`, and reports nothing once it has been held that
/// long.
pub proof fn law_timed_hold_reports_until_max(
    hold: Map<u64, u64>,
    snap: ButtonSnapshot,
    elapsed: u64,
    key: u64,
    action: Action,
    max_duration: u64,
)
    requires
        snap.pressed@.contains(key),
        !snap.just_pressed@.contains(key),
        hold.contains_key(key),
        hold[key] <= elapsed,
    ensures
        ({
            let evs = digital_frame(
                InputContext::Game,
                hold,
                snap,
                elapsed,
                seq![(key, action, InputMode::HeldTimed { max_duration })],
            ).1;
            if elapsed - hold[key] < max_duration {
                evs == seq![
                    ActionEvent {
                        action: Action::Player(PlayerAction::JumpHeld),
                        value: ActionValue::HoldRemaining {
                            since: hold[key],
                            now: elapsed,
                            max_duration,
                        },
                    },
                ]
            } else {
                evs.len() == 0
            }
        }),
{
    lemma_single_binding_frame(
        InputContext::Game,
        hold,
        snap,
        elapsed,
        (key, action, InputMode::HeldTimed { max_duration }),
    );
    assert(Seq::<ActionEvent>::empty() + Seq::<ActionEvent>::empty() =~= Seq::<ActionEvent>::empty());
}

/// Law: while a repeat binding's key stays down (its clock started at
/// `start`, no new press this frame) and has been held `initial_delay +
/// k * repeat_interval + m` microseconds (`k` whole intervals past the
/// delay, `m` into the next), the action fires exactly when `m` is within
/// `REPEAT_TOLERANCE` of a full interval; it never fires before the delay
/// has passed, and with a zero interval it fires on every frame after it.
pub proof fn law_repeat_fires_at_interval_ends(
    context: InputContext,
    hold: Map<u64, u64>,
    snap: ButtonSnapshot,
    elapsed: u64,
    key: u64,
    action: Action,
    initial_delay: u64,
    repeat_interval: u64,
    k: nat,
    m: nat,
)
    requires
        snap.pressed@.contains(key),
        !snap.just_pressed@.contains(key),
        hold.contains_key(key),
        hold[key] <= elapsed,
    ensures
        ({
            let evs = digital_frame(
                context,
                hold,
                snap,
                elapsed,
                seq![(key, action, InputMode::RepeatOnHold { initial_delay, repeat_interval })],
            ).1;
            let held: int = elapsed - hold[key];
            &&& held <= initial_delay ==> evs.len() == 0
            &&& repeat_interval == 0 && held > initial_delay ==> evs == seq![
                ActionEvent { action, value: ActionValue::Full },
            ]
            &&& repeat_interval > 0 && m < repeat_interval && held > initial_delay && held
                == initial_delay + k * repeat_interval + m ==> if m + REPEAT_TOLERANCE >= repeat_interval {
                evs == seq![ActionEvent { action, value: ActionValue::Full }]
            } else {
                evs.len() == 0
            }
        }),
{
    let b = (key, action, InputMode::RepeatOnHold { initial_delay, repeat_interval });
    lemma_single_binding_frame(context, hold, snap, elapsed, b);
    assert(Seq::<ActionEvent>::empty() + Seq::<ActionEvent>::empty() =~= Seq::<ActionEvent>::empty());
    let held: int = elapsed - hold[key];
    if repeat_interval > 0 && m < repeat_interval && held > initial_delay && held == initial_delay + k
        * repeat_interval + m {
        let iv: int = repeat_interval as int;
        vstd::arithmetic::div_mod::lemma_mod_multiples_vanish(k as int, m as int, iv);
        vstd::arithmetic::div_mod::lemma_small_mod(m, repeat_interval as nat);
        assert(iv * k + m == held - initial_delay) by (nonlinear_arith)
            requires
                held == initial_delay + k * iv + m,
        ;
        assert((held - initial_delay) % iv == m);
        assert(repeat_due(hold[key], elapsed, initial_delay, repeat_interval) == (m + REPEAT_TOLERANCE
            >= repeat_interval));
    }
}

/// Law: each half of each axis has a latch of its own: different (axis,
/// direction) pairs never share one.
pub proof fn law_axis_halves_latch_apart(a: u32, d: AxisDirection, b: u32, e: AxisDirection)
    requires
        (a, d) != (b, e),
    ensures
        spec_axis_key(a, d) != spec_axis_key(b, e),
{
}

/// Law: in a menu, one frame of an allowed axis binding with a reading `v`
/// reports the push (with its magnitude) exactly when `v` is past the
/// threshold in the binding's own direction and its latch was not set; the
/// latch is then set. A reading whose magnitude is below the dead zone
/// clears the latch; any other reading leaves a latch that was not newly
/// set as it was.
pub proof fn law_menu_axis_latch(
    triggered: Map<u64, bool>,
    binding: (u32, AxisDirection, Action),
    v: i32,
)
    requires
        action_allowed(InputContext::Menu, binding.2),
    ensures
        ({
            let key = spec_axis_key(binding.0, binding.1);
            let f = axes_frame(InputContext::Menu, triggered, seq![binding], seq![Some(v)]);
            let mag: int = if v < 0 {
                -v
            } else {
                v as int
            };
            let pushed = match binding.1 {
                AxisDirection::Positive => v > AXIS_THRESHOLD,
                AxisDirection::Negative => v < -AXIS_THRESHOLD,
            };
            let latched = triggered.contains_key(key) && triggered[key];
            &&& f.1 == (if pushed && !latched {
                seq![ActionEvent { action: binding.2, value: ActionValue::Magnitude(mag as u32) }]
            } else {
                Seq::<ActionEvent>::empty()
            })
            &&& mag < AXIS_DEADZONE ==> !f.0.contains_key(key)
            &&& mag >= AXIS_DEADZONE && pushed ==> f.0.contains_key(key) && f.0[key]
            &&& mag >= AXIS_DEADZONE && !pushed ==> f.0 == triggered
        }),
{
    let bs = seq![binding];
    let rs = seq![Some(v)];
    assert(bs.drop_last() =~= Seq::<(u32, AxisDirection, Action)>::empty());
    assert(rs.take(0) =~= Seq::<Option<i32>>::empty());
    assert(bs.last() == binding);
    assert(rs[0] == Some(v));
    let prev = axes_frame(InputContext::Menu, triggered, bs.drop_last(), rs.take(0));
    assert(prev == (triggered, Seq::<ActionEvent>::empty()));
    let st = axis_step(triggered, true, binding, Some(v));
    assert(Seq::<ActionEvent>::empty() + st.1 =~= st.1);
}

/// Law: each context admits exactly its own family of actions: the game
/// admits every player action and no menu action, and a menu admits every
/// menu action and no player action.
pub proof fn law_each_context_admits_its_family(p: PlayerAction, m: MenuAction)
    ensures
        action_allowed(InputContext::Game, Action::Player(p)),
        !action_allowed(InputContext::Game, Action::Menu(m)),
        action_allowed(InputContext::Menu, Action::Menu(m)),
        !action_allowed(InputContext::Menu, Action::Player(p)),
{
}

} // verus!

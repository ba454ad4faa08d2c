use vstd::prelude::*;

verus! {

/// Offset added to an axis-and-sign index to turn a relative event into a
/// synthetic key code that no real scancode uses.
pub const DISGUISED_EVENT_OFFSETTER: u16 = 59974;

/// Highest relative axis that has a disguised key code.
pub const MAX_DISGUISED_AXIS: u16 = 12;

#[derive(Clone, Copy, Debug, PartialEq, Eq, Structural)]
pub enum KeyValue {
    Release,
    Press,
    Repeat,
}

#[derive(Clone, Copy, Debug, PartialEq, Eq, Structural)]
pub struct KeyEvent {
    pub code: u16,
    pub value: KeyValue,
}

impl KeyEvent {
    pub fn new(code: u16, value: KeyValue) -> (r: KeyEvent)
        ensures
            r.code == code,
            r.value == value,
    {
        KeyEvent { code, value }
    }
}

#[derive(Clone, Copy, Debug, PartialEq, Eq, Structural)]
pub struct RelativeEvent {
    pub code: u16,
    pub value: i32,
}

impl RelativeEvent {
    pub fn new_with(code: u16, value: i32) -> (r: RelativeEvent)
        ensures
            r.code == code,
            r.value == value,
    {
        RelativeEvent { code, value }
    }
}

/// The device an event came from.
#[derive(Clone, Debug)]
pub struct InputDeviceInfo {
    pub name: String,
    pub path: String,
}

impl InputDeviceInfo {
    pub fn new(name: &str, path: &str) -> (r: InputDeviceInfo)
        ensures
            r.name@ == name@,
            r.path@ == path@,
    {
        InputDeviceInfo { name: name.to_owned(), path: path.to_owned() }
    }
}

#[derive(Clone, Debug)]
pub enum Event {
    KeyEvent(InputDeviceInfo, KeyEvent),
    RelativeEvent(InputDeviceInfo, RelativeEvent),
    OtherEvent,
}

/// What the handler asks the output device to do.
#[derive(Clone, Debug, PartialEq, Eq)]
pub enum Action {
    KeyEvent(KeyEvent),
    /// Emit a synchronisation boundary and wait this many nanoseconds.
    Delay(u64),
    /// Relative events to be written with no boundary between them.
    MouseMovementEventCollection(Vec<RelativeEvent>),
}

/// Mathematical form of an [`Action`].
pub enum ActionView {
    Key(u16, KeyValue),
    Delay(u64),
    Motion(Seq<RelativeEvent>),
}

impl View for Action {
    type V = ActionView;

    open spec fn view(&self) -> ActionView {
        match self {
            Action::KeyEvent(e) => ActionView::Key(e.code, e.value),
            Action::Delay(d) => ActionView::Delay(*d),
            Action::MouseMovementEventCollection(v) => ActionView::Motion(v@),
        }
    }
}

pub open spec fn actions_view(v: Seq<Action>) -> Seq<ActionView> {
    v.map_values(|a: Action| a@)
}

pub open spec fn is_disguisable(ev: RelativeEvent) -> bool {
    ev.code <= MAX_DISGUISED_AXIS
}

/// Synthetic key code of a relative event: even offsets for positive (and zero)
/// deltas, odd ones for negative deltas.
pub open spec fn disguised_code(ev: RelativeEvent) -> int {
    DISGUISED_EVENT_OFFSETTER + 2 * ev.code + if ev.value < 0 { 1int } else { 0int }
}

pub fn disguise(ev: RelativeEvent) -> (r: u16)
    requires
        is_disguisable(ev),
    ensures
        r == disguised_code(ev),
{
    let sign: u16 = if ev.value < 0 { 1 } else { 0 };
    DISGUISED_EVENT_OFFSETTER + 2 * ev.code + sign
}

} // verus!

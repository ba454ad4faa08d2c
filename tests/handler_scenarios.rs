use evdev::Key;
use xremap::config::{parse_key, parse_key_press, parse_trigger, Config, KeymapAction, KeymapEntry, Matcher, Rule};
use xremap::event::{Action, Event, InputDeviceInfo, KeyEvent, KeyValue, RelativeEvent, DISGUISED_EVENT_OFFSETTER};
use xremap::handler::{Client, EventHandler};

struct StaticClient {
    current_application: Option<String>,
}

impl Client for StaticClient {
    fn supported(&mut self) -> bool {
        true
    }
    fn current_window(&mut self) -> Option<String> {
        None
    }

    fn current_application(&mut self) -> Option<String> {
        self.current_application.clone()
    }
}

fn get_input_device_info() -> InputDeviceInfo {
    InputDeviceInfo::new("Some Device", "/dev/input/event0")
}

fn key_event(key: Key, value: KeyValue) -> Event {
    Event::KeyEvent(get_input_device_info(), KeyEvent::new(key.code(), value))
}

fn key_action(key: Key, value: KeyValue) -> Action {
    Action::KeyEvent(KeyEvent::new(key.code(), value))
}

fn delay() -> Action {
    Action::Delay(0)
}

fn chord(s: &str) -> KeymapAction {
    KeymapAction::KeyPress(parse_key_press(s).unwrap())
}

fn rule(trigger: &str, actions: Vec<KeymapAction>) -> Rule {
    Rule { trigger: parse_trigger(trigger).unwrap(), actions }
}

/// Adds a keymap block with these rules and returns its entry for adjusting.
fn entry(config: &mut Config, rules: Vec<Rule>) -> KeymapEntry {
    KeymapEntry::new(config.add_remap(rules))
}

fn modmap(config: &mut Config, from: &str, to: &str) {
    config.add_modmap(parse_key(from).unwrap(), parse_key(to).unwrap());
}

fn assert_actions(config: &Config, events: Vec<Event>, actions: Vec<Action>) {
    assert_actions_with_current_application(config, None, events, actions);
}

fn assert_actions_with_current_application(
    config: &Config,
    current_application: Option<String>,
    events: Vec<Event>,
    actions: Vec<Action>,
) {
    let mut event_handler = EventHandler::new(StaticClient { current_application }, 0);
    let actual = event_handler.on_events(&events, config);
    assert_eq!(format!("{:?}", actions), format!("{:?}", actual));
}

const _POSITIVE: i32 = 1;
const _NEGATIVE: i32 = -1;

const _REL_X: u16 = 0;
const _REL_Y: u16 = 1;
const _REL_WHEEL: u16 = 8;


#[test]
fn test_basic_modmap() {
    let mut config = Config::new();
    modmap(&mut config, "a", "b");
    assert_actions(
        &config,
        vec![
            key_event(Key::KEY_A, KeyValue::Press),
            key_event(Key::KEY_A, KeyValue::Release),
            key_event(Key::KEY_B, KeyValue::Press),
            key_event(Key::KEY_B, KeyValue::Release),
        ],
        vec![
            key_action(Key::KEY_B, KeyValue::Press),
            key_action(Key::KEY_B, KeyValue::Release),
            key_action(Key::KEY_B, KeyValue::Press),
            key_action(Key::KEY_B, KeyValue::Release),
        ],
    )
}

#[test]
fn test_relative_events() {
    let mut config = Config::new();
    modmap(&mut config, "XRIGHTCURSOR", "b");
    assert_actions(
        &config,
        vec![Event::RelativeEvent(
            get_input_device_info(),
            RelativeEvent::new_with(_REL_X, _POSITIVE),
        )],
        vec![
            key_action(Key::KEY_B, KeyValue::Press),
            key_action(Key::KEY_B, KeyValue::Release),
        ],
    )
}

#[test]
fn verify_disguised_relative_events() {
    // Verifies that the event offsetter used to "disguise" relative events into key event
    // is a bigger number than the biggest one a scancode had at the time of writing this (26 december 2022)
    assert!(0x2e7 < DISGUISED_EVENT_OFFSETTER);
    // and that it's not big enough that one of the "disguised" events's scancode would overflow.
    // (the largest of those events is equal to DISGUISED_EVENT_OFFSETTER + 26)
    assert!(DISGUISED_EVENT_OFFSETTER <= u16::MAX - 26)
}

#[test]
fn test_mouse_movement_event_accumulation() {
    let config = Config::new();
    // Tests that mouse movement events correctly get collected to be sent as one MouseMovementEventCollection,
    // which is necessary to avoid separating mouse movement events with synchronization events,
    // because such a separation would cause a bug with cursor movement.

    assert_actions(
        &config,
        vec![
            Event::RelativeEvent(get_input_device_info(), RelativeEvent::new_with(_REL_X, _POSITIVE)),
            Event::RelativeEvent(get_input_device_info(), RelativeEvent::new_with(_REL_Y, _POSITIVE)),
        ],
        vec![Action::MouseMovementEventCollection(vec![
            RelativeEvent::new_with(_REL_X, _POSITIVE),
            RelativeEvent::new_with(_REL_Y, _POSITIVE),
        ])],
    )
}

#[test]
fn test_interleave_modifiers() {
    let mut config = Config::new();
    let e = entry(&mut config, vec![rule("M-f", vec![chord("C-right")])]);
    config.add_entry(e);
    assert_actions(
        &config,
        vec![
            key_event(Key::KEY_LEFTALT, KeyValue::Press),
            key_event(Key::KEY_F, KeyValue::Press),
        ],
        vec![
            key_action(Key::KEY_LEFTALT, KeyValue::Press),
            key_action(Key::KEY_LEFTCTRL, KeyValue::Press),
            key_action(Key::KEY_LEFTALT, KeyValue::Release),
            key_action(Key::KEY_RIGHT, KeyValue::Press),
            key_action(Key::KEY_RIGHT, KeyValue::Release),
            delay(),
            key_action(Key::KEY_LEFTALT, KeyValue::Press),
            delay(),
            key_action(Key::KEY_LEFTCTRL, KeyValue::Release),
        ],
    )
}

#[test]
fn test_exact_match_true() {
    let mut config = Config::new();
    let mut e = entry(&mut config, vec![rule("M-f", vec![chord("C-right")])]);
    e.exact_match = true;
    config.add_entry(e);
    assert_actions(
        &config,
        vec![
            key_event(Key::KEY_LEFTALT, KeyValue::Press),
            key_event(Key::KEY_LEFTSHIFT, KeyValue::Press),
            key_event(Key::KEY_F, KeyValue::Press),
        ],
        vec![
            key_action(Key::KEY_LEFTALT, KeyValue::Press),
            key_action(Key::KEY_LEFTSHIFT, KeyValue::Press),
            key_action(Key::KEY_F, KeyValue::Press),
        ],
    )
}

#[test]
fn test_exact_match_false() {
    let mut config = Config::new();
    let mut e = entry(&mut config, vec![rule("M-f", vec![chord("C-right")])]);
    e.exact_match = false;
    config.add_entry(e);
    assert_actions(
        &config,
        vec![
            key_event(Key::KEY_LEFTALT, KeyValue::Press),
            key_event(Key::KEY_LEFTSHIFT, KeyValue::Press),
            key_event(Key::KEY_F, KeyValue::Press),
        ],
        vec![
            key_action(Key::KEY_LEFTALT, KeyValue::Press),
            key_action(Key::KEY_LEFTSHIFT, KeyValue::Press),
            key_action(Key::KEY_LEFTCTRL, KeyValue::Press),
            key_action(Key::KEY_LEFTALT, KeyValue::Release),
            key_action(Key::KEY_RIGHT, KeyValue::Press),
            key_action(Key::KEY_RIGHT, KeyValue::Release),
            delay(),
            key_action(Key::KEY_LEFTALT, KeyValue::Press),
            delay(),
            key_action(Key::KEY_LEFTCTRL, KeyValue::Release),
        ],
    )
}

#[test]
fn test_exact_match_default() {
    let mut config = Config::new();
    let e = entry(&mut config, vec![rule("M-f", vec![chord("C-right")])]);
    config.add_entry(e);
    assert_actions(
        &config,
        vec![
            key_event(Key::KEY_LEFTALT, KeyValue::Press),
            key_event(Key::KEY_LEFTSHIFT, KeyValue::Press),
            key_event(Key::KEY_F, KeyValue::Press),
        ],
        vec![
            key_action(Key::KEY_LEFTALT, KeyValue::Press),
            key_action(Key::KEY_LEFTSHIFT, KeyValue::Press),
            key_action(Key::KEY_LEFTCTRL, KeyValue::Press),
            key_action(Key::KEY_LEFTALT, KeyValue::Release),
            key_action(Key::KEY_RIGHT, KeyValue::Press),
            key_action(Key::KEY_RIGHT, KeyValue::Release),
            delay(),
            key_action(Key::KEY_LEFTALT, KeyValue::Press),
            delay(),
            key_action(Key::KEY_LEFTCTRL, KeyValue::Release),
        ],
    )
}

#[test]
fn test_exact_match_true_nested() {
    let mut config = Config::new();
    let sub = config.add_remap(vec![rule("h", vec![chord("C-a")])]);
    let mut e = entry(&mut config, vec![rule("C-x", vec![KeymapAction::Remap(sub)])]);
    e.exact_match = true;
    config.add_entry(e);
    assert_actions(
        &config,
        vec![
            key_event(Key::KEY_LEFTCTRL, KeyValue::Press),
            key_event(Key::KEY_X, KeyValue::Press),
            key_event(Key::KEY_X, KeyValue::Release),
            key_event(Key::KEY_LEFTCTRL, KeyValue::Release),
            key_event(Key::KEY_LEFTSHIFT, KeyValue::Press),
            key_event(Key::KEY_H, KeyValue::Press),
        ],
        vec![
            key_action(Key::KEY_LEFTCTRL, KeyValue::Press),
            key_action(Key::KEY_X, KeyValue::Release),
            key_action(Key::KEY_LEFTCTRL, KeyValue::Release),
            key_action(Key::KEY_LEFTSHIFT, KeyValue::Press),
            key_action(Key::KEY_H, KeyValue::Press),
        ],
    )
}

#[test]
fn test_exact_match_false_nested() {
    let mut config = Config::new();
    let sub = config.add_remap(vec![rule("h", vec![chord("C-a")])]);
    let mut e = entry(&mut config, vec![rule("C-x", vec![KeymapAction::Remap(sub)])]);
    e.exact_match = false;
    config.add_entry(e);
    assert_actions(
        &config,
        vec![
            key_event(Key::KEY_LEFTCTRL, KeyValue::Press),
            key_event(Key::KEY_X, KeyValue::Press),
            key_event(Key::KEY_X, KeyValue::Release),
            key_event(Key::KEY_LEFTCTRL, KeyValue::Release),
            key_event(Key::KEY_LEFTSHIFT, KeyValue::Press),
            key_event(Key::KEY_H, KeyValue::Press),
        ],
        vec![
            key_action(Key::KEY_LEFTCTRL, KeyValue::Press),
            key_action(Key::KEY_X, KeyValue::Release),
            key_action(Key::KEY_LEFTCTRL, KeyValue::Release),
            key_action(Key::KEY_LEFTSHIFT, KeyValue::Press),
            key_action(Key::KEY_LEFTCTRL, KeyValue::Press),
            key_action(Key::KEY_A, KeyValue::Press),
            key_action(Key::KEY_A, KeyValue::Release),
            delay(),
            delay(),
            key_action(Key::KEY_LEFTCTRL, KeyValue::Release),
        ],
    )
}

#[test]
fn test_application_override() {
    let mut config = Config::new();
    let mut firefox = entry(&mut config, vec![rule("a", vec![chord("C-c")])]);
    firefox.name = Some(String::from("firefox"));
    firefox.application = Some(Matcher { only: true, patterns: vec![String::from("firefox")] });
    config.add_entry(firefox);
    let mut generic = entry(&mut config, vec![rule("a", vec![chord("C-b")])]);
    generic.name = Some(String::from("generic"));
    config.add_entry(generic);
    
    assert_actions(
        &config,
        vec![key_event(Key::KEY_A, KeyValue::Press)],
        vec![
            key_action(Key::KEY_LEFTCTRL, KeyValue::Press),
            key_action(Key::KEY_B, KeyValue::Press),
            key_action(Key::KEY_B, KeyValue::Release),
            delay(),
            delay(),
            key_action(Key::KEY_LEFTCTRL, KeyValue::Release),
        ],
    );

    assert_actions_with_current_application(
        &config,
        Some(String::from("firefox")),
        vec![key_event(Key::KEY_A, KeyValue::Press)],
        vec![
            key_action(Key::KEY_LEFTCTRL, KeyValue::Press),
            key_action(Key::KEY_C, KeyValue::Press),
            key_action(Key::KEY_C, KeyValue::Release),
            delay(),
            delay(),
            key_action(Key::KEY_LEFTCTRL, KeyValue::Release),
        ],
    );
}

#[test]
fn test_device_override() {
    let mut config = Config::new();
    let mut event1 = entry(&mut config, vec![rule("a", vec![chord("C-c")])]);
    event1.name = Some(String::from("event1"));
    event1.device = Some(Matcher { only: true, patterns: vec![String::from("event1")] });
    config.add_entry(event1);
    let mut event0 = entry(&mut config, vec![rule("a", vec![chord("C-b")])]);
    event0.name = Some(String::from("event0"));
    config.add_entry(event0);
    
    assert_actions(
        &config,
        vec![Event::KeyEvent(InputDeviceInfo::new("Some Device", "/dev/input/event0"), KeyEvent::new(Key::KEY_A.code(), KeyValue::Press))],
        vec![
            key_action(Key::KEY_LEFTCTRL, KeyValue::Press),
            key_action(Key::KEY_B, KeyValue::Press),
            key_action(Key::KEY_B, KeyValue::Release),
            delay(),
            delay(),
            key_action(Key::KEY_LEFTCTRL, KeyValue::Release),
        ],
    );

    assert_actions(
        &config,
        vec![Event::KeyEvent(InputDeviceInfo::new("Other Device", "/dev/input/event1"), KeyEvent::new(Key::KEY_A.code(), KeyValue::Press))],
        vec![
            key_action(Key::KEY_LEFTCTRL, KeyValue::Press),
            key_action(Key::KEY_C, KeyValue::Press),
            key_action(Key::KEY_C, KeyValue::Release),
            delay(),
            delay(),
            key_action(Key::KEY_LEFTCTRL, KeyValue::Release),
        ],
    );
}

#[test]
fn test_merge_remaps() {
    let mut config = Config::new();
    let sub1 = config.add_remap(vec![rule("h", vec![chord("C-a")])]);
    let e1 = entry(&mut config, vec![rule("C-x", vec![KeymapAction::Remap(sub1)])]);
    config.add_entry(e1);
    let sub2 = config.add_remap(vec![rule("k", vec![chord("C-w")])]);
    let e2 = entry(&mut config, vec![rule("C-x", vec![KeymapAction::Remap(sub2)])]);
    config.add_entry(e2);
    
    assert_actions(
        &config,
        vec![
            key_event(Key::KEY_LEFTCTRL, KeyValue::Press),
            key_event(Key::KEY_X, KeyValue::Press),
            key_event(Key::KEY_X, KeyValue::Release),
            key_event(Key::KEY_LEFTCTRL, KeyValue::Release),
            key_event(Key::KEY_H, KeyValue::Press),
        ],
        vec![
            key_action(Key::KEY_LEFTCTRL, KeyValue::Press),
            key_action(Key::KEY_X, KeyValue::Release),
            key_action(Key::KEY_LEFTCTRL, KeyValue::Release),
            key_action(Key::KEY_LEFTCTRL, KeyValue::Press),
            key_action(Key::KEY_A, KeyValue::Press),
            key_action(Key::KEY_A, KeyValue::Release),
            delay(),
            delay(),
            key_action(Key::KEY_LEFTCTRL, KeyValue::Release),
        ],
    );

    assert_actions(
        &config,
        vec![
            key_event(Key::KEY_LEFTCTRL, KeyValue::Press),
            key_event(Key::KEY_X, KeyValue::Press),
            key_event(Key::KEY_X, KeyValue::Release),
            key_event(Key::KEY_LEFTCTRL, KeyValue::Release),
            key_event(Key::KEY_K, KeyValue::Press),
        ],
        vec![
            key_action(Key::KEY_LEFTCTRL, KeyValue::Press),
            key_action(Key::KEY_X, KeyValue::Release),
            key_action(Key::KEY_LEFTCTRL, KeyValue::Release),
            key_action(Key::KEY_LEFTCTRL, KeyValue::Press),
            key_action(Key::KEY_W, KeyValue::Press),
            key_action(Key::KEY_W, KeyValue::Release),
            delay(),
            delay(),
            key_action(Key::KEY_LEFTCTRL, KeyValue::Release),
        ],
    )
}

#[test]
fn test_merge_remaps_with_override() {
    let mut config = Config::new();
    let sub1 = config.add_remap(vec![rule("h", vec![chord("C-a")])]);
    let e1 = entry(&mut config, vec![rule("C-x", vec![KeymapAction::Remap(sub1)])]);
    config.add_entry(e1);
    let sub2 = config.add_remap(vec![rule("h", vec![chord("C-b")]), rule("c", vec![chord("C-q")])]);
    let e2 = entry(&mut config, vec![rule("C-x", vec![KeymapAction::Remap(sub2)])]);
    config.add_entry(e2);
    
    assert_actions(
        &config,
        vec![
            key_event(Key::KEY_LEFTCTRL, KeyValue::Press),
            key_event(Key::KEY_X, KeyValue::Press),
            key_event(Key::KEY_X, KeyValue::Release),
            key_event(Key::KEY_LEFTCTRL, KeyValue::Release),
            key_event(Key::KEY_H, KeyValue::Press),
        ],
        vec![
            key_action(Key::KEY_LEFTCTRL, KeyValue::Press),
            key_action(Key::KEY_X, KeyValue::Release),
            key_action(Key::KEY_LEFTCTRL, KeyValue::Release),
            key_action(Key::KEY_LEFTCTRL, KeyValue::Press),
            key_action(Key::KEY_B, KeyValue::Press),
            key_action(Key::KEY_B, KeyValue::Release),
            delay(),
            delay(),
            key_action(Key::KEY_LEFTCTRL, KeyValue::Release),
        ],
    );

    assert_actions(
        &config,
        vec![
            key_event(Key::KEY_LEFTCTRL, KeyValue::Press),
            key_event(Key::KEY_X, KeyValue::Press),
            key_event(Key::KEY_X, KeyValue::Release),
            key_event(Key::KEY_LEFTCTRL, KeyValue::Release),
            key_event(Key::KEY_C, KeyValue::Press),
        ],
        vec![
            key_action(Key::KEY_LEFTCTRL, KeyValue::Press),
            key_action(Key::KEY_X, KeyValue::Release),
            key_action(Key::KEY_LEFTCTRL, KeyValue::Release),
            key_action(Key::KEY_LEFTCTRL, KeyValue::Press),
            key_action(Key::KEY_Q, KeyValue::Press),
            key_action(Key::KEY_Q, KeyValue::Release),
            delay(),
            delay(),
            key_action(Key::KEY_LEFTCTRL, KeyValue::Release),
        ],
    )
}

#[test]
fn test_mixing_keypress_and_remap_in_keymap_action() {
    let mut config = Config::new();
    let sub = config.add_remap(vec![rule("a", vec![chord("b")])]);
    let e = entry(&mut config, vec![rule("f12", vec![chord("d"), KeymapAction::Remap(sub)])]);
    config.add_entry(e);
    // KEY_D will be emitted, and the remap will be used for next key press.
    assert_actions(
        &config,
        vec![
            key_event(Key::KEY_F12, KeyValue::Press),
            key_event(Key::KEY_F12, KeyValue::Release),
            key_event(Key::KEY_A, KeyValue::Press),
            key_event(Key::KEY_A, KeyValue::Release),
        ],
        vec![
            key_action(Key::KEY_D, KeyValue::Press),
            key_action(Key::KEY_D, KeyValue::Release),
            delay(),
            delay(),
            key_action(Key::KEY_F12, KeyValue::Release),
            key_action(Key::KEY_B, KeyValue::Press),
            key_action(Key::KEY_B, KeyValue::Release),
            delay(),
            delay(),
            key_action(Key::KEY_A, KeyValue::Release),
        ],
    )
}

#[test]
fn test_mixing_no_keypress_and_remap_in_keymap_action() {
    let mut config = Config::new();
    let e1 = entry(&mut config, vec![rule("f12", vec![])]);
    config.add_entry(e1);
    let sub = config.add_remap(vec![rule("a", vec![chord("b")])]);
    let e2 = entry(&mut config, vec![rule("f12", vec![KeymapAction::Remap(sub)])]);
    config.add_entry(e2);
    // The first match stops the search for matches. So the last remap isn't used.
    assert_actions(
        &config,
        vec![
            key_event(Key::KEY_F12, KeyValue::Press),
            key_event(Key::KEY_F12, KeyValue::Release),
            key_event(Key::KEY_A, KeyValue::Press),
            key_event(Key::KEY_A, KeyValue::Release),
        ],
        vec![
            key_action(Key::KEY_F12, KeyValue::Release),
            key_action(Key::KEY_A, KeyValue::Press),
            key_action(Key::KEY_A, KeyValue::Release),
        ],
    )
}

#[test]
fn test_no_keymap_action() {
    let mut config = Config::new();
    let e = entry(&mut config, vec![rule("f12", vec![])]);
    config.add_entry(e);
    let mut config_null = Config::new();
    let e = entry(&mut config_null, vec![rule("f12", vec![])]);
    config_null.add_entry(e);
    assert_actions(
        &config,
        vec![
            key_event(Key::KEY_F12, KeyValue::Press),
            key_event(Key::KEY_F12, KeyValue::Release),
        ],
        vec![
            //This is just release, so the key is not emitted.
            key_action(Key::KEY_F12, KeyValue::Release),
        ],
    );

    //Same test with the null keyword
    assert_actions(
        &config_null,
        vec![
            key_event(Key::KEY_F12, KeyValue::Press),
            key_event(Key::KEY_F12, KeyValue::Release),
        ],
        vec![key_action(Key::KEY_F12, KeyValue::Release)],
    )
}

#[test]
fn test_any_key() {
    let mut config = Config::new();
    let e = entry(&mut config, vec![rule("a", vec![chord("b")]), rule("ANY", vec![])]);
    config.add_entry(e);
    assert_actions(
        &config,
        vec![
            key_event(Key::KEY_A, KeyValue::Press),
            key_event(Key::KEY_A, KeyValue::Release),
            key_event(Key::KEY_C, KeyValue::Press),
            key_event(Key::KEY_C, KeyValue::Release),
        ],
        vec![
            key_action(Key::KEY_B, KeyValue::Press),
            key_action(Key::KEY_B, KeyValue::Release),
            delay(),
            delay(),
            key_action(Key::KEY_A, KeyValue::Release),
            key_action(Key::KEY_C, KeyValue::Release),
        ],
    );
}

#[test]
fn test_any_key_doesnt_match_modifier_1() {
    let mut config = Config::new();
    let e = entry(&mut config, vec![rule("ANY", vec![])]);
    config.add_entry(e);
    assert_actions(
        &config,
        vec![
            key_event(Key::KEY_LEFTCTRL, KeyValue::Press),
            key_event(Key::KEY_LEFTCTRL, KeyValue::Release),
        ],
        vec![
            key_action(Key::KEY_LEFTCTRL, KeyValue::Press),
            key_action(Key::KEY_LEFTCTRL, KeyValue::Release),
        ],
    );
}

#[test]
fn test_any_key_doesnt_match_modifier_2() {
    let mut config = Config::new();
    let e = entry(&mut config, vec![rule("Shift-ANY", vec![])]);
    config.add_entry(e);
    assert_actions(
        &config,
        vec![
            key_event(Key::KEY_LEFTSHIFT, KeyValue::Press),
            key_event(Key::KEY_LEFTCTRL, KeyValue::Press),
            key_event(Key::KEY_LEFTCTRL, KeyValue::Release),
            key_event(Key::KEY_LEFTSHIFT, KeyValue::Release),
        ],
        vec![
            key_action(Key::KEY_LEFTSHIFT, KeyValue::Press),
            key_action(Key::KEY_LEFTCTRL, KeyValue::Press),
            key_action(Key::KEY_LEFTCTRL, KeyValue::Release),
            key_action(Key::KEY_LEFTSHIFT, KeyValue::Release),
        ],
    );
}

#[test]
fn test_terminal_modifier() {
    let mut config = Config::new();
    let e = entry(&mut config, vec![rule("c_l", vec![chord("end")])]);
    config.add_entry(e);
    assert_actions(
        &config,
        vec![key_event(Key::KEY_LEFTCTRL, KeyValue::Press)],
        vec![
            key_action(Key::KEY_END, KeyValue::Press),
            key_action(Key::KEY_END, KeyValue::Release),
            delay(),
            delay(),
        ],
    )
}

#[test]
fn test_terminal_modifier_with_other_modifier() {
    let mut config = Config::new();
    let e = entry(&mut config, vec![rule("c_l-c_r", vec![chord("end")])]);
    config.add_entry(e);
    assert_actions(
        &config,
        vec![
            key_event(Key::KEY_LEFTCTRL, KeyValue::Press),
            key_event(Key::KEY_RIGHTCTRL, KeyValue::Press),
        ],
        vec![
            key_action(Key::KEY_LEFTCTRL, KeyValue::Press),
            key_action(Key::KEY_LEFTCTRL, KeyValue::Release),
            key_action(Key::KEY_END, KeyValue::Press),
            key_action(Key::KEY_END, KeyValue::Release),
            delay(),
            key_action(Key::KEY_LEFTCTRL, KeyValue::Press),
            delay(),
        ],
    )
}

#[test]
fn test_terminal_modifier_sends_other_modifier_combo() {
    let mut config = Config::new();
    let e = entry(&mut config, vec![rule("alt_l-alt_r", vec![chord("c-x")])]);
    config.add_entry(e);
    assert_actions(
        &config,
        vec![
            key_event(Key::KEY_LEFTALT, KeyValue::Press),
            key_event(Key::KEY_RIGHTALT, KeyValue::Press),
        ],
        vec![
            key_action(Key::KEY_LEFTALT, KeyValue::Press),
            key_action(Key::KEY_LEFTCTRL, KeyValue::Press),
            key_action(Key::KEY_LEFTALT, KeyValue::Release),
            key_action(Key::KEY_X, KeyValue::Press),
            key_action(Key::KEY_X, KeyValue::Release),
            delay(),
            key_action(Key::KEY_LEFTALT, KeyValue::Press),
            delay(),
            key_action(Key::KEY_LEFTCTRL, KeyValue::Release),
        ],
    )
}

#[test]
fn test_terminal_modifier_sends_same_modifier_combo() {
    let mut config = Config::new();
    let e = entry(&mut config, vec![rule("c_r-c_l", vec![chord("c-x")])]);
    config.add_entry(e);
    assert_actions(
        &config,
        vec![
            key_event(Key::KEY_RIGHTCTRL, KeyValue::Press),
            key_event(Key::KEY_LEFTCTRL, KeyValue::Press),
        ],
        vec![
            key_action(Key::KEY_RIGHTCTRL, KeyValue::Press),
            key_action(Key::KEY_X, KeyValue::Press),
            key_action(Key::KEY_X, KeyValue::Release),
            delay(),
            delay(),
        ],
    )
}

#[test]
fn test_terminal_modifier_with_exact_match() {
    let mut config = Config::new();
    let mut e = entry(&mut config, vec![rule("shift_r", vec![chord("c")]), rule("win_l-shift_r", vec![chord("k")])]);
    e.exact_match = true;
    config.add_entry(e);
    assert_actions(
        &config,
        vec![
            key_event(Key::KEY_LEFTMETA, KeyValue::Press),
            key_event(Key::KEY_RIGHTSHIFT, KeyValue::Press),
        ],
        vec![
            key_action(Key::KEY_LEFTMETA, KeyValue::Press),
            key_action(Key::KEY_LEFTMETA, KeyValue::Release),
            key_action(Key::KEY_K, KeyValue::Press),
            key_action(Key::KEY_K, KeyValue::Release),
            delay(),
            key_action(Key::KEY_LEFTMETA, KeyValue::Press),
            delay(),
        ],
    )
}

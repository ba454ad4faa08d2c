use crate::event::DISGUISED_EVENT_OFFSETTER;
use vstd::prelude::*;
use vstd::string::*;

verus! {

pub const KEY_LEFTCTRL: u16 = 29;
pub const KEY_LEFTSHIFT: u16 = 42;
pub const KEY_RIGHTSHIFT: u16 = 54;
pub const KEY_LEFTALT: u16 = 56;
pub const KEY_RIGHTCTRL: u16 = 97;
pub const KEY_RIGHTALT: u16 = 100;
pub const KEY_LEFTMETA: u16 = 125;
pub const KEY_RIGHTMETA: u16 = 126;

/// The fixed table of physical modifier keys.
pub open spec fn is_modifier_key(c: u16) -> bool {
    c == KEY_LEFTCTRL || c == KEY_RIGHTCTRL || c == KEY_LEFTSHIFT || c == KEY_RIGHTSHIFT || c
        == KEY_LEFTALT || c == KEY_RIGHTALT || c == KEY_LEFTMETA || c == KEY_RIGHTMETA
}

pub fn is_modifier(c: u16) -> (r: bool)
    ensures
        r == is_modifier_key(c),
{
    c == KEY_LEFTCTRL || c == KEY_RIGHTCTRL || c == KEY_LEFTSHIFT || c == KEY_RIGHTSHIFT || c
        == KEY_LEFTALT || c == KEY_RIGHTALT || c == KEY_LEFTMETA || c == KEY_RIGHTMETA
}

/// A modifier requirement: a class that either side satisfies, or one exact key.
#[derive(Clone, Copy, Debug, PartialEq, Eq, Structural)]
pub enum Modifier {
    Shift,
    Control,
    Alt,
    Windows,
    Key(u16),
}

pub open spec fn modifier_matches(m: Modifier, c: u16) -> bool {
    match m {
        Modifier::Shift => c == KEY_LEFTSHIFT || c == KEY_RIGHTSHIFT,
        Modifier::Control => c == KEY_LEFTCTRL || c == KEY_RIGHTCTRL,
        Modifier::Alt => c == KEY_LEFTALT || c == KEY_RIGHTALT,
        Modifier::Windows => c == KEY_LEFTMETA || c == KEY_RIGHTMETA,
        Modifier::Key(k) => c == k,
    }
}

pub fn matches_modifier(m: Modifier, c: u16) -> (r: bool)
    ensures
        r == modifier_matches(m, c),
{
    match m {
        Modifier::Shift => c == KEY_LEFTSHIFT || c == KEY_RIGHTSHIFT,
        Modifier::Control => c == KEY_LEFTCTRL || c == KEY_RIGHTCTRL,
        Modifier::Alt => c == KEY_LEFTALT || c == KEY_RIGHTALT,
        Modifier::Windows => c == KEY_LEFTMETA || c == KEY_RIGHTMETA,
        Modifier::Key(k) => c == k,
    }
}

/// The key pressed to satisfy a modifier that is not held: the left one of its class.
pub open spec fn press_code(m: Modifier) -> u16 {
    match m {
        Modifier::Shift => KEY_LEFTSHIFT,
        Modifier::Control => KEY_LEFTCTRL,
        Modifier::Alt => KEY_LEFTALT,
        Modifier::Windows => KEY_LEFTMETA,
        Modifier::Key(k) => k,
    }
}

pub fn modifier_press_code(m: Modifier) -> (r: u16)
    ensures
        r == press_code(m),
{
    match m {
        Modifier::Shift => KEY_LEFTSHIFT,
        Modifier::Control => KEY_LEFTCTRL,
        Modifier::Alt => KEY_LEFTALT,
        Modifier::Windows => KEY_LEFTMETA,
        Modifier::Key(k) => k,
    }
}

#[derive(Clone, Copy, Debug, PartialEq, Eq, Structural)]
pub enum TriggerKey {
    Key(u16),
    /// Any key that is not a modifier.
    Any,
}

/// What a rule reacts to.
#[derive(Clone, Debug)]
pub struct Trigger {
    pub key: TriggerKey,
    pub modifiers: Vec<Modifier>,
}

/// A chord to emit.
#[derive(Clone, Debug)]
pub struct KeyPress {
    pub key: u16,
    pub modifiers: Vec<Modifier>,
}

#[derive(Clone, Debug)]
pub enum KeymapAction {
    KeyPress(KeyPress),
    /// Install the rule list with this index in `Config::remaps` as the sub-map.
    Remap(usize),
}

/// One trigger and what it does; no actions suppresses the key.
#[derive(Clone, Debug)]
pub struct Rule {
    pub trigger: Trigger,
    pub actions: Vec<KeymapAction>,
}

/// `only` keeps an entry for the listed names; otherwise it skips them.
#[derive(Clone, Debug)]
pub struct Matcher {
    pub only: bool,
    pub patterns: Vec<String>,
}

#[derive(Clone, Copy, Debug, PartialEq, Eq, Structural)]
pub struct ModmapRule {
    pub from: u16,
    pub to: u16,
}

/// A keymap block: predicates on the context and the rule list it applies.
#[derive(Clone, Debug)]
pub struct KeymapEntry {
    pub name: Option<String>,
    pub exact_match: bool,
    pub application: Option<Matcher>,
    pub window: Option<Matcher>,
    pub device: Option<Matcher>,
    /// Index of the entry's rules in `Config::remaps`.
    pub remap: usize,
}

impl KeymapEntry {
    pub fn new(remap: usize) -> (r: KeymapEntry)
        ensures
            r.name.is_none(),
            !r.exact_match,
            r.application.is_none(),
            r.window.is_none(),
            r.device.is_none(),
            r.remap == remap,
    {
        KeymapEntry {
            name: None,
            exact_match: false,
            application: None,
            window: None,
            device: None,
            remap,
        }
    }
}

/// The rule set. Rule lists live in `remaps` and refer to each other by index,
/// which gives every sub-map a stable name while the handler keeps it active.
pub struct Config {
    pub modmap: Vec<ModmapRule>,
    pub keymap: Vec<KeymapEntry>,
    pub remaps: Vec<Vec<Rule>>,
}

impl Config {
    pub fn new() -> (r: Config)
        ensures
            r.modmap@.len() == 0,
            r.keymap@.len() == 0,
            r.remaps@.len() == 0,
    {
        Config { modmap: Vec::new(), keymap: Vec::new(), remaps: Vec::new() }
    }

    /// Stores a rule list and returns its index, by which rules name it as a
    /// sub-map. An index that names no list names an empty sub-map.
    pub fn add_remap(&mut self, rules: Vec<Rule>) -> (r: usize)
        ensures
            r == old(self).remaps@.len(),
            final(self).remaps@ == old(self).remaps@.push(rules),
            final(self).keymap@ == old(self).keymap@,
            final(self).modmap@ == old(self).modmap@,
    {
        let r = self.remaps.len();
        self.remaps.push(rules);
        r
    }

    pub fn add_entry(&mut self, entry: KeymapEntry)
        ensures
            final(self).keymap@ == old(self).keymap@.push(entry),
            final(self).remaps@ == old(self).remaps@,
            final(self).modmap@ == old(self).modmap@,
    {
        self.keymap.push(entry);
    }

    pub fn add_modmap(&mut self, from: u16, to: u16)
        ensures
            final(self).modmap@ == old(self).modmap@.push(ModmapRule { from, to }),
            final(self).keymap@ == old(self).keymap@,
            final(self).remaps@ == old(self).remaps@,
    {
        self.modmap.push(ModmapRule { from, to });
    }
}

#[derive(Clone, Copy, Debug, PartialEq, Eq, Structural)]
pub enum ConfigError {
    /// A key name that is neither an evdev name, an alias nor a motion name.
    UnknownKey,
    /// A token before the last `-` that names no modifier.
    MalformedModifier,
}

/// Upper-cased text, as `str::to_uppercase` gives it.
pub uninterp spec fn upper_of(s: Seq<char>) -> Seq<char>;

/// The code that evdev's table of key names gives a name, if any.
pub uninterp spec fn evdev_code_of(name: Seq<char>) -> Option<u16>;

/// Relies on `str::to_uppercase`: the result depends on the characters alone.
#[verifier::external_body]
fn uppercase(s: &str) -> (r: String)
    ensures
        r@ == upper_of(s@),
{
    s.to_uppercase()
}

/// Relies on evdev's `FromStr` for `Key`, which looks the exact name up in its
/// table of key names, and on `Key::code`.
#[verifier::external_body]
fn evdev_key_code(name: &Vec<char>) -> (r: Option<u16>)
    ensures
        r == evdev_code_of(name@),
{
    let s: String = name.iter().collect();
    <evdev::Key as std::str::FromStr>::from_str(&s).ok().map(|k| k.code())
}

fn chars_of(s: &str) -> (r: Vec<char>)
    ensures
        r@ == s@,
{
    let n = s.unicode_len();
    let mut r: Vec<char> = Vec::new();
    let mut i: usize = 0;
    while i < n
        invariant
            n == s@.len(),
            i <= n,
            r@ == s@.take(i as int),
        decreases n - i,
    {
        r.push(s.get_char(i));
        i = i + 1;
        assert(r@ =~= s@.take(i as int));
    }
    assert(r@ =~= s@);
    r
}

fn chars_eq(a: &Vec<char>, b: &str) -> (r: bool)
    ensures
        r == (a@ == b@),
{
    let n = b.unicode_len();
    if a.len() != n {
        return false;
    }
    let mut i: usize = 0;
    while i < n
        invariant
            n == b@.len(),
            a@.len() == n,
            i <= n,
            forall|j: int| 0 <= j < i ==> a@[j] == b@[j],
        decreases n - i,
    {
        if a[i] != b.get_char(i) {
            return false;
        }
        i = i + 1;
    }
    assert(a@ =~= b@);
    true
}

pub open spec fn named_code(u: Seq<char>) -> Option<u16> {
    if u == "SHIFT_R"@ {
        Some(54u16)
    } else if u == "SHIFT_L"@ {
        Some(42u16)
    } else if u == "CONTROL_R"@ {
        Some(97u16)
    } else if u == "CONTROL_L"@ {
        Some(29u16)
    } else if u == "CTRL_R"@ {
        Some(97u16)
    } else if u == "CTRL_L"@ {
        Some(29u16)
    } else if u == "C_R"@ {
        Some(97u16)
    } else if u == "C_L"@ {
        Some(29u16)
    } else if u == "ALT_R"@ {
        Some(100u16)
    } else if u == "ALT_L"@ {
        Some(56u16)
    } else if u == "M_R"@ {
        Some(100u16)
    } else if u == "M_L"@ {
        Some(56u16)
    } else if u == "SUPER_R"@ {
        Some(126u16)
    } else if u == "SUPER_L"@ {
        Some(125u16)
    } else if u == "WIN_R"@ {
        Some(126u16)
    } else if u == "WIN_L"@ {
        Some(125u16)
    } else if u == "XRIGHTCURSOR"@ {
        Some((DISGUISED_EVENT_OFFSETTER + 0) as u16)
    } else if u == "XLEFTCURSOR"@ {
        Some((DISGUISED_EVENT_OFFSETTER + 1) as u16)
    } else if u == "XDOWNCURSOR"@ {
        Some((DISGUISED_EVENT_OFFSETTER + 2) as u16)
    } else if u == "XUPCURSOR"@ {
        Some((DISGUISED_EVENT_OFFSETTER + 3) as u16)
    } else if u == "XREL_Z_AXIS_1"@ {
        Some((DISGUISED_EVENT_OFFSETTER + 4) as u16)
    } else if u == "XREL_Z_AXIS_2"@ {
        Some((DISGUISED_EVENT_OFFSETTER + 5) as u16)
    } else if u == "XREL_RX_AXIS_1"@ {
        Some((DISGUISED_EVENT_OFFSETTER + 6) as u16)
    } else if u == "XREL_RX_AXIS_2"@ {
        Some((DISGUISED_EVENT_OFFSETTER + 7) as u16)
    } else if u == "XREL_RY_AXIS_1"@ {
        Some((DISGUISED_EVENT_OFFSETTER + 8) as u16)
    } else if u == "XREL_RY_AXIS_2"@ {
        Some((DISGUISED_EVENT_OFFSETTER + 9) as u16)
    } else if u == "XREL_RZ_AXIS_1"@ {
        Some((DISGUISED_EVENT_OFFSETTER + 10) as u16)
    } else if u == "XREL_RZ_AXIS_2"@ {
        Some((DISGUISED_EVENT_OFFSETTER + 11) as u16)
    } else if u == "XRIGHTSCROLL"@ {
        Some((DISGUISED_EVENT_OFFSETTER + 12) as u16)
    } else if u == "XLEFTSCROLL"@ {
        Some((DISGUISED_EVENT_OFFSETTER + 13) as u16)
    } else if u == "XREL_DIAL_1"@ {
        Some((DISGUISED_EVENT_OFFSETTER + 14) as u16)
    } else if u == "XREL_DIAL_2"@ {
        Some((DISGUISED_EVENT_OFFSETTER + 15) as u16)
    } else if u == "XUPSCROLL"@ {
        Some((DISGUISED_EVENT_OFFSETTER + 16) as u16)
    } else if u == "XDOWNSCROLL"@ {
        Some((DISGUISED_EVENT_OFFSETTER + 17) as u16)
    } else if u == "XREL_MISC_1"@ {
        Some((DISGUISED_EVENT_OFFSETTER + 18) as u16)
    } else if u == "XREL_MISC_2"@ {
        Some((DISGUISED_EVENT_OFFSETTER + 19) as u16)
    } else if u == "XREL_RESERVED_1"@ {
        Some((DISGUISED_EVENT_OFFSETTER + 20) as u16)
    } else if u == "XREL_RESERVED_2"@ {
        Some((DISGUISED_EVENT_OFFSETTER + 21) as u16)
    } else if u == "XHIRES_UPSCROLL"@ {
        Some((DISGUISED_EVENT_OFFSETTER + 22) as u16)
    } else if u == "XHIRES_DOWNSCROLL"@ {
        Some((DISGUISED_EVENT_OFFSETTER + 23) as u16)
    } else if u == "XHIRES_RIGHTSCROLL"@ {
        Some((DISGUISED_EVENT_OFFSETTER + 24) as u16)
    } else if u == "XHIRES_LEFTSCROLL"@ {
        Some((DISGUISED_EVENT_OFFSETTER + 25) as u16)
    } else {
        None
    }
}

fn named_code_exec(u: &Vec<char>) -> (r: Option<u16>)
    ensures
        r == named_code(u@),
{
    if chars_eq(u, "SHIFT_R") {
        Some(54)
    } else if chars_eq(u, "SHIFT_L") {
        Some(42)
    } else if chars_eq(u, "CONTROL_R") {
        Some(97)
    } else if chars_eq(u, "CONTROL_L") {
        Some(29)
    } else if chars_eq(u, "CTRL_R") {
        Some(97)
    } else if chars_eq(u, "CTRL_L") {
        Some(29)
    } else if chars_eq(u, "C_R") {
        Some(97)
    } else if chars_eq(u, "C_L") {
        Some(29)
    } else if chars_eq(u, "ALT_R") {
        Some(100)
    } else if chars_eq(u, "ALT_L") {
        Some(56)
    } else if chars_eq(u, "M_R") {
        Some(100)
    } else if chars_eq(u, "M_L") {
        Some(56)
    } else if chars_eq(u, "SUPER_R") {
        Some(126)
    } else if chars_eq(u, "SUPER_L") {
        Some(125)
    } else if chars_eq(u, "WIN_R") {
        Some(126)
    } else if chars_eq(u, "WIN_L") {
        Some(125)
    } else if chars_eq(u, "XRIGHTCURSOR") {
        Some(DISGUISED_EVENT_OFFSETTER + 0)
    } else if chars_eq(u, "XLEFTCURSOR") {
        Some(DISGUISED_EVENT_OFFSETTER + 1)
    } else if chars_eq(u, "XDOWNCURSOR") {
        Some(DISGUISED_EVENT_OFFSETTER + 2)
    } else if chars_eq(u, "XUPCURSOR") {
        Some(DISGUISED_EVENT_OFFSETTER + 3)
    } else if chars_eq(u, "XREL_Z_AXIS_1") {
        Some(DISGUISED_EVENT_OFFSETTER + 4)
    } else if chars_eq(u, "XREL_Z_AXIS_2") {
        Some(DISGUISED_EVENT_OFFSETTER + 5)
    } else if chars_eq(u, "XREL_RX_AXIS_1") {
        Some(DISGUISED_EVENT_OFFSETTER + 6)
    } else if chars_eq(u, "XREL_RX_AXIS_2") {
        Some(DISGUISED_EVENT_OFFSETTER + 7)
    } else if chars_eq(u, "XREL_RY_AXIS_1") {
        Some(DISGUISED_EVENT_OFFSETTER + 8)
    } else if chars_eq(u, "XREL_RY_AXIS_2") {
        Some(DISGUISED_EVENT_OFFSETTER + 9)
    } else if chars_eq(u, "XREL_RZ_AXIS_1") {
        Some(DISGUISED_EVENT_OFFSETTER + 10)
    } else if chars_eq(u, "XREL_RZ_AXIS_2") {
        Some(DISGUISED_EVENT_OFFSETTER + 11)
    } else if chars_eq(u, "XRIGHTSCROLL") {
        Some(DISGUISED_EVENT_OFFSETTER + 12)
    } else if chars_eq(u, "XLEFTSCROLL") {
        Some(DISGUISED_EVENT_OFFSETTER + 13)
    } else if chars_eq(u, "XREL_DIAL_1") {
        Some(DISGUISED_EVENT_OFFSETTER + 14)
    } else if chars_eq(u, "XREL_DIAL_2") {
        Some(DISGUISED_EVENT_OFFSETTER + 15)
    } else if chars_eq(u, "XUPSCROLL") {
        Some(DISGUISED_EVENT_OFFSETTER + 16)
    } else if chars_eq(u, "XDOWNSCROLL") {
        Some(DISGUISED_EVENT_OFFSETTER + 17)
    } else if chars_eq(u, "XREL_MISC_1") {
        Some(DISGUISED_EVENT_OFFSETTER + 18)
    } else if chars_eq(u, "XREL_MISC_2") {
        Some(DISGUISED_EVENT_OFFSETTER + 19)
    } else if chars_eq(u, "XREL_RESERVED_1") {
        Some(DISGUISED_EVENT_OFFSETTER + 20)
    } else if chars_eq(u, "XREL_RESERVED_2") {
        Some(DISGUISED_EVENT_OFFSETTER + 21)
    } else if chars_eq(u, "XHIRES_UPSCROLL") {
        Some(DISGUISED_EVENT_OFFSETTER + 22)
    } else if chars_eq(u, "XHIRES_DOWNSCROLL") {
        Some(DISGUISED_EVENT_OFFSETTER + 23)
    } else if chars_eq(u, "XHIRES_RIGHTSCROLL") {
        Some(DISGUISED_EVENT_OFFSETTER + 24)
    } else if chars_eq(u, "XHIRES_LEFTSCROLL") {
        Some(DISGUISED_EVENT_OFFSETTER + 25)
    } else {
        None
    }
}

/// The code of an upper-cased key name: an evdev name, an evdev name without its
/// `KEY_` prefix, a side-specific modifier alias, or a relative-motion name.
pub open spec fn key_code_upper(u: Seq<char>) -> Option<u16> {
    match evdev_code_of(u) {
        Some(c) => Some(c),
        None => match evdev_code_of(seq!['K', 'E', 'Y', '_'] + u) {
            Some(c) => Some(c),
            None => named_code(u),
        },
    }
}

pub open spec fn key_code_of(name: Seq<char>) -> Option<u16> {
    key_code_upper(upper_of(name))
}

/// The code of an upper-cased key name.
pub fn key_code_of_upper(u: &Vec<char>) -> (r: Option<u16>)
    ensures
        r == key_code_upper(u@),
{
    match evdev_key_code(u) {
        Some(c) => Some(c),
        None => {
            let mut k: Vec<char> = vec!['K', 'E', 'Y', '_'];
            let mut i: usize = 0;
            while i < u.len()
                invariant
                    i <= u@.len(),
                    k@ == seq!['K', 'E', 'Y', '_'] + u@.take(i as int),
                decreases u@.len() - i,
            {
                k.push(u[i]);
                i = i + 1;
                assert(k@ =~= seq!['K', 'E', 'Y', '_'] + u@.take(i as int));
            }
            assert(u@.take(u@.len() as int) =~= u@);
            match evdev_key_code(&k) {
                Some(c) => Some(c),
                None => named_code_exec(u),
            }
        },
    }
}

/// Parses a key name, ignoring case.
pub fn parse_key(name: &str) -> (r: Result<u16, ConfigError>)
    ensures
        r.is_ok() <==> key_code_of(name@).is_some(),
        r.is_ok() ==> r.unwrap() == key_code_of(name@).unwrap(),
        r.is_err() ==> r == Err::<u16, ConfigError>(ConfigError::UnknownKey),
{
    let u = uppercase(name);
    let uc = chars_of(u.as_str());
    match key_code_of_upper(&uc) {
        Some(c) => Ok(c),
        None => Err(ConfigError::UnknownKey),
    }
}

/// The tokens of an upper-cased trigger between its `-` separators.
pub open spec fn split_dash(s: Seq<char>) -> Seq<Seq<char>>
    decreases s.len(),
{
    if s.len() == 0 {
        seq![seq![]]
    } else {
        let t = split_dash(s.drop_last());
        if s.last() == '-' {
            t.push(seq![])
        } else {
            t.update(t.len() - 1, t.last().push(s.last()))
        }
    }
}

proof fn lemma_split_dash_nonempty(s: Seq<char>)
    ensures
        split_dash(s).len() >= 1,
    decreases s.len(),
{
    if s.len() > 0 {
        lemma_split_dash_nonempty(s.drop_last());
    }
}


proof fn lemma_split_grows(s: Seq<char>, n: int, m: int, j: int)
    requires
        0 <= n <= m <= s.len(),
        0 <= j < split_dash(s.take(n)).len() - 1,
    ensures
        split_dash(s.take(m)).len() >= split_dash(s.take(n)).len(),
        split_dash(s.take(m))[j] == split_dash(s.take(n))[j],
    decreases m - n,
{
    if m > n {
        lemma_split_grows(s, n, m - 1, j);
        assert(s.take(m).drop_last() =~= s.take(m - 1));
        lemma_split_dash_nonempty(s.take(m - 1));
    }
}

proof fn lemma_split_prefix_stable(s: Seq<char>, n: int, j: int)
    requires
        0 <= n <= s.len(),
        0 <= j < split_dash(s.take(n)).len() - 1,
    ensures
        split_dash(s).len() >= split_dash(s.take(n)).len(),
        split_dash(s)[j] == split_dash(s.take(n))[j],
{
    lemma_split_grows(s, n, s.len() as int, j);
    assert(s.take(s.len() as int) =~= s);
}

pub open spec fn modifier_of(u: Seq<char>) -> Option<Modifier> {
    if u == "C"@ || u == "CTRL"@ || u == "CONTROL"@ {
        Some(Modifier::Control)
    } else if u == "M"@ || u == "ALT"@ {
        Some(Modifier::Alt)
    } else if u == "SHIFT"@ {
        Some(Modifier::Shift)
    } else if u == "SUPER"@ || u == "WIN"@ || u == "WINDOWS"@ {
        Some(Modifier::Windows)
    } else {
        match key_code_upper(u) {
            Some(c) => if is_modifier_key(c) {
                Some(Modifier::Key(c))
            } else {
                None
            },
            None => None,
        }
    }
}

/// The modifier that an upper-cased token names.
pub fn modifier_of_upper(u: &Vec<char>) -> (r: Option<Modifier>)
    ensures
        r == modifier_of(u@),
{
    if chars_eq(u, "C") || chars_eq(u, "CTRL") || chars_eq(u, "CONTROL") {
        Some(Modifier::Control)
    } else if chars_eq(u, "M") || chars_eq(u, "ALT") {
        Some(Modifier::Alt)
    } else if chars_eq(u, "SHIFT") {
        Some(Modifier::Shift)
    } else if chars_eq(u, "SUPER") || chars_eq(u, "WIN") || chars_eq(u, "WINDOWS") {
        Some(Modifier::Windows)
    } else {
        match key_code_of_upper(u) {
            Some(c) => if is_modifier(c) {
                Some(Modifier::Key(c))
            } else {
                None
            },
            None => None,
        }
    }
}

pub open spec fn trigger_key_of(u: Seq<char>) -> Option<TriggerKey> {
    if u == "ANY"@ {
        Some(TriggerKey::Any)
    } else {
        match key_code_upper(u) {
            Some(c) => Some(TriggerKey::Key(c)),
            None => None,
        }
    }
}

/// The tokens before the last `-` of an upper-cased trigger.
pub open spec fn modifier_tokens(u: Seq<char>) -> Seq<Seq<char>> {
    split_dash(u).drop_last()
}

/// The token after the last `-` of an upper-cased trigger.
pub open spec fn key_token(u: Seq<char>) -> Seq<char> {
    split_dash(u).last()
}

pub open spec fn modifiers_parse(u: Seq<char>) -> bool {
    forall|i: int| 0 <= i < modifier_tokens(u).len() ==> (#[trigger] modifier_of(modifier_tokens(u)[i])).is_some()
}

/// The modifiers that a well-formed upper-cased trigger names, in order.
pub open spec fn modifiers_of(u: Seq<char>) -> Seq<Modifier> {
    modifier_tokens(u).map_values(|t: Seq<char>| modifier_of(t).unwrap())
}

/// Parses an upper-cased `<mod>-...-<key>`; the key may be `ANY`.
pub fn parse_upper_trigger(uc: &Vec<char>) -> (r: Result<Trigger, ConfigError>)
    ensures
        !modifiers_parse(uc@) ==> r == Err::<Trigger, ConfigError>(ConfigError::MalformedModifier),
        modifiers_parse(uc@) && trigger_key_of(key_token(uc@)).is_none() ==> r == Err::<
            Trigger,
            ConfigError,
        >(ConfigError::UnknownKey),
        modifiers_parse(uc@) && trigger_key_of(key_token(uc@)).is_some() ==> r.is_ok() && r.unwrap().key
            == trigger_key_of(key_token(uc@)).unwrap() && r.unwrap().modifiers@ == modifiers_of(uc@),
{
    let ghost toks = split_dash(uc@);
    proof {
        lemma_split_dash_nonempty(uc@);
    }
    let mut mods: Vec<Modifier> = Vec::new();
    let mut cur: Vec<char> = Vec::new();
    let mut done: usize = 0;
    let mut i: usize = 0;
    while i < uc.len()
        invariant
            i <= uc@.len(),
            done <= i,
            toks == split_dash(uc@),
            split_dash(uc@.take(i as int)).len() == done + 1,
            split_dash(uc@.take(i as int)).last() == cur@,
            forall|j: int| 0 <= j < done ==> split_dash(uc@.take(i as int))[j] == #[trigger] toks[j],
            forall|j: int| 0 <= j < done ==> modifier_of(#[trigger] toks[j]).is_some(),
            mods@.len() == done,
            forall|j: int| 0 <= j < done ==> #[trigger] mods@[j] == modifier_of(toks[j]).unwrap(),
        decreases uc@.len() - i,
    {
        assert(uc@.take(i + 1).drop_last() =~= uc@.take(i as int));
        if uc[i] == '-' {
            proof {
                let p = uc@.take(i + 1);
                assert(p.last() == '-');
                assert(split_dash(p) == split_dash(uc@.take(i as int)).push(seq![]));
                lemma_split_prefix_stable(uc@, i as int + 1, done as int);
                assert(toks[done as int] == cur@);
            }
            match modifier_of_upper(&cur) {
                Some(m) => {
                    mods.push(m);
                },
                None => {
                    proof {
                        assert(modifier_tokens(uc@)[done as int] == cur@);
                    }
                    return Err(ConfigError::MalformedModifier);
                },
            }
            cur = Vec::new();
            done = done + 1;
        } else {
            cur.push(uc[i]);
        }
        i = i + 1;
        proof {
            assert forall|j: int| 0 <= j < done implies split_dash(uc@.take(i as int))[j] == #[trigger] toks[j] by {
                lemma_split_prefix_stable(uc@, i as int, j);
            }
        }
    }
    assert(uc@.take(i as int) =~= uc@);
    let key = if chars_eq(&cur, "ANY") {
        TriggerKey::Any
    } else {
        match key_code_of_upper(&cur) {
            Some(c) => TriggerKey::Key(c),
            None => {
                return Err(ConfigError::UnknownKey);
            },
        }
    };
    assert(mods@ =~= modifiers_of(uc@));
    Ok(Trigger { key, modifiers: mods })
}

/// Parses `<mod>-...-<key>`, ignoring case; the key may be `ANY`.
pub fn parse_trigger(s: &str) -> (r: Result<Trigger, ConfigError>)
    ensures
        !modifiers_parse(upper_of(s@)) ==> r == Err::<Trigger, ConfigError>(ConfigError::MalformedModifier),
        modifiers_parse(upper_of(s@)) && trigger_key_of(key_token(upper_of(s@))).is_none() ==> r == Err::<
            Trigger,
            ConfigError,
        >(ConfigError::UnknownKey),
        modifiers_parse(upper_of(s@)) && trigger_key_of(key_token(upper_of(s@))).is_some() ==> r.is_ok()
            && r.unwrap().key == trigger_key_of(key_token(upper_of(s@))).unwrap() && r.unwrap().modifiers@
            == modifiers_of(upper_of(s@)),
{
    let u = uppercase(s);
    let uc = chars_of(u.as_str());
    parse_upper_trigger(&uc)
}

/// Parses an output chord `<mod>-...-<key>`, ignoring case; `ANY` names no key.
pub fn parse_key_press(s: &str) -> (r: Result<KeyPress, ConfigError>)
    ensures
        !modifiers_parse(upper_of(s@)) ==> r == Err::<KeyPress, ConfigError>(ConfigError::MalformedModifier),
        modifiers_parse(upper_of(s@)) && !(trigger_key_of(key_token(upper_of(s@))) matches Some(TriggerKey::Key(_)))
            ==> r == Err::<KeyPress, ConfigError>(ConfigError::UnknownKey),
        modifiers_parse(upper_of(s@)) ==> (trigger_key_of(key_token(upper_of(s@))) matches Some(TriggerKey::Key(c))
            ==> r.is_ok() && r.unwrap().key == c && r.unwrap().modifiers@ == modifiers_of(upper_of(s@))),
{
    match parse_trigger(s) {
        Ok(t) => match t.key {
            TriggerKey::Key(c) => Ok(KeyPress { key: c, modifiers: t.modifiers }),
            TriggerKey::Any => Err(ConfigError::UnknownKey),
        },
        Err(e) => Err(e),
    }
}

} // verus!

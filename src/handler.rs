use crate::config::{
    is_modifier, is_modifier_key, matches_modifier, modifier_matches, modifier_press_code,
    press_code, Config, KeyPress, KeymapAction, KeymapEntry, Matcher, Modifier, ModmapRule, Rule,
    TriggerKey,
};
use crate::event::{
    actions_view, disguise, disguised_code, is_disguisable, Action, ActionView, Event,
    InputDeviceInfo, KeyEvent, KeyValue, RelativeEvent, MAX_DISGUISED_AXIS,
};
use vstd::prelude::*;

verus! {

/// What the window manager reports about the focused window.
pub struct Context {
    pub application: Option<String>,
    pub window: Option<String>,
}

/// A rule list that is being searched, whether its triggers match exactly, and
/// the keymap entry it comes from (a sub-map comes from its parent's entry).
#[derive(Clone, Copy, Debug, PartialEq, Eq, Structural)]
pub struct Group {
    pub rules: usize,
    pub exact: bool,
    pub origin: usize,
}

// ---------------------------------------------------------------- predicates

/// What `Regex::is_match` says of a compiled pattern and a text; `None` where
/// the pattern does not compile.
pub uninterp spec fn regex_match_of(pattern: Seq<char>, text: Seq<char>) -> Option<bool>;

/// Relies on `regex::Regex::new`, which compiles a pattern or fails, and on
/// `Regex::is_match`.
#[verifier::external_body]
fn regex_is_match(pattern: &str, text: &str) -> (r: Option<bool>)
    ensures
        r == regex_match_of(pattern@, text@),
{
    regex::Regex::new(pattern).ok().map(|re| re.is_match(text))
}

/// A pattern anchored at both ends, so that a match covers the whole text.
pub open spec fn anchored(p: Seq<char>) -> Seq<char> {
    "^(?:"@ + p + ")$"@
}

fn anchored_exec(p: &String) -> (r: String)
    ensures
        r@ == anchored(p@),
{
    let mut r = "^(?:".to_owned();
    vstd::string::StringExecFns::append(&mut r, p.as_str());
    vstd::string::StringExecFns::append(&mut r, ")$");
    r
}

/// Some pattern of the list, anchored at both ends, compiles and matches the text.
pub open spec fn has_pattern(ps: Seq<String>, v: Seq<char>) -> bool {
    exists|i: int| 0 <= i < ps.len() && regex_match_of(anchored((#[trigger] ps[i])@), v) == Some(true)
}

pub open spec fn context_allows(m: Option<Matcher>, v: Option<String>) -> bool {
    match m {
        None => true,
        Some(m) => match v {
            None => false,
            Some(s) => if m.only {
                has_pattern(m.patterns@, s@)
            } else {
                !has_pattern(m.patterns@, s@)
            },
        },
    }
}

/// A device pattern names a device by its name, its path, or its path's last part.
pub open spec fn names_device(p: Seq<char>, dev: InputDeviceInfo) -> bool {
    let path = dev.path@;
    p == dev.name@ || p == path || (path.len() > p.len() && path[path.len() - p.len() - 1] == '/'
        && path.subrange(path.len() - p.len(), path.len() as int) == p)
}

pub open spec fn device_allows(m: Option<Matcher>, dev: InputDeviceInfo) -> bool {
    match m {
        None => true,
        Some(m) => {
            let hit = exists|i: int|
                0 <= i < m.patterns@.len() && names_device((#[trigger] m.patterns@[i])@, dev);
            if m.only {
                hit
            } else {
                !hit
            }
        },
    }
}

pub open spec fn entry_applies(e: KeymapEntry, ctx: Context, dev: InputDeviceInfo) -> bool {
    context_allows(e.application, ctx.application) && context_allows(e.window, ctx.window)
        && device_allows(e.device, dev)
}

/// The rule lists of the entries that apply, in declaration order.
pub open spec fn top_groups(entries: Seq<KeymapEntry>, ctx: Context, dev: InputDeviceInfo) -> Seq<
    Group,
>
    decreases entries.len(),
{
    if entries.len() == 0 {
        seq![]
    } else {
        let g = top_groups(entries.drop_last(), ctx, dev);
        let e = entries.last();
        if entry_applies(e, ctx, dev) {
            g.push(Group { rules: e.remap, exact: e.exact_match, origin: (entries.len() - 1) as usize })
        } else {
            g
        }
    }
}

fn string_eq(a: &String, b: &String) -> (r: bool)
    ensures
        r == (a@ == b@),
{
    a.eq(b)
}

fn has_pattern_exec(ps: &Vec<String>, v: &String) -> (r: bool)
    ensures
        r == has_pattern(ps@, v@),
{
    let mut i: usize = 0;
    while i < ps.len()
        invariant
            i <= ps@.len(),
            forall|j: int| 0 <= j < i ==> regex_match_of(anchored((#[trigger] ps@[j])@), v@) != Some(true),
        decreases ps@.len() - i,
    {
        let a = anchored_exec(&ps[i]);
        if regex_is_match(a.as_str(), v.as_str()) == Some(true) {
            assert(regex_match_of(anchored(ps@[i as int]@), v@) == Some(true));
            return true;
        }
        i = i + 1;
    }
    false
}

fn context_allows_exec(m: &Option<Matcher>, v: &Option<String>) -> (r: bool)
    ensures
        r == context_allows(*m, *v),
{
    match m {
        None => true,
        Some(m) => match v {
            None => false,
            Some(s) => {
                let hit = has_pattern_exec(&m.patterns, s);
                if m.only {
                    hit
                } else {
                    !hit
                }
            },
        },
    }
}

fn chars_of_string(s: &String) -> (r: Vec<char>)
    ensures
        r@ == s@,
{
    let t = s.as_str();
    let n = vstd::string::StrSliceExecFns::unicode_len(t);
    let mut r: Vec<char> = Vec::new();
    let mut i: usize = 0;
    while i < n
        invariant
            n == t@.len(),
            t@ == s@,
            i <= n,
            r@ == s@.take(i as int),
        decreases n - i,
    {
        r.push(vstd::string::StrSliceExecFns::get_char(t, i));
        i = i + 1;
        assert(r@ =~= s@.take(i as int));
    }
    assert(r@ =~= s@);
    r
}

fn names_device_exec(p: &String, dev: &InputDeviceInfo) -> (r: bool)
    ensures
        r == names_device(p@, *dev),
{
    if string_eq(p, &dev.name) || string_eq(p, &dev.path) {
        return true;
    }
    let pc = chars_of_string(p);
    let path = chars_of_string(&dev.path);
    if path.len() <= pc.len() {
        return false;
    }
    let n = path.len();
    let start = n - pc.len();
    if path[start - 1] != '/' {
        return false;
    }
    let mut i: usize = 0;
    while i < pc.len()
        invariant
            pc@ == p@,
            path@ == dev.path@,
            p@ != dev.name@,
            p@ != dev.path@,
            path@[start - 1] == '/',
            path@.len() > pc@.len(),
            n == path@.len(),
            start == path@.len() - pc@.len(),
            i <= pc@.len(),
            forall|j: int| 0 <= j < i ==> path@[start + j] == pc@[j],
        decreases pc@.len() - i,
    {
        if path[start + i] != pc[i] {
            assert(path@.subrange(start as int, path@.len() as int)[i as int] != pc@[i as int]);
            return false;
        }
        i = i + 1;
    }
    assert(path@.subrange(start as int, path@.len() as int) =~= pc@);
    true
}

fn device_allows_exec(matcher: &Option<Matcher>, dev: &InputDeviceInfo) -> (r: bool)
    ensures
        r == device_allows(*matcher, *dev),
{
    match matcher {
        None => true,
        Some(m) => {
            let mut i: usize = 0;
            while i < m.patterns.len()
                invariant
                    i <= m.patterns@.len(),
                    forall|j: int| 0 <= j < i ==> !names_device((#[trigger] m.patterns@[j])@, *dev),
                    *matcher == Some(*m),
                decreases m.patterns@.len() - i,
            {
                if names_device_exec(&m.patterns[i], dev) {
                    assert(0 <= i < m.patterns@.len() && names_device(m.patterns@[i as int]@, *dev));
                    return m.only;
                }
                i = i + 1;
            }
            !m.only
        },
    }
}

fn top_groups_exec(entries: &Vec<KeymapEntry>, ctx: &Context, dev: &InputDeviceInfo) -> (r: Vec<
    Group,
>)
    ensures
        r@ == top_groups(entries@, *ctx, *dev),
{
    let mut r: Vec<Group> = Vec::new();
    let mut i: usize = 0;
    while i < entries.len()
        invariant
            i <= entries@.len(),
            r@ == top_groups(entries@.take(i as int), *ctx, *dev),
        decreases entries@.len() - i,
    {
        assert(entries@.take(i + 1).drop_last() =~= entries@.take(i as int));
        let e = &entries[i];
        if context_allows_exec(&e.application, &ctx.application) && context_allows_exec(
            &e.window,
            &ctx.window,
        ) && device_allows_exec(&e.device, dev) {
            r.push(Group { rules: e.remap, exact: e.exact_match, origin: i });
        }
        i = i + 1;
    }
    assert(entries@.take(entries@.len() as int) =~= entries@);
    r
}


// ---------------------------------------------------------------- matching

pub open spec fn held_satisfies(held: Seq<u16>, m: Modifier) -> bool {
    exists|i: int| 0 <= i < held.len() && modifier_matches(m, #[trigger] held[i])
}

pub open spec fn required_by(mods: Seq<Modifier>, c: u16) -> bool {
    exists|j: int| 0 <= j < mods.len() && modifier_matches(#[trigger] mods[j], c)
}

/// Every required modifier is held; under exact matching, nothing else is.
pub open spec fn trigger_fits(mods: Seq<Modifier>, held: Seq<u16>, exact: bool) -> bool {
    &&& forall|j: int| 0 <= j < mods.len() ==> held_satisfies(held, #[trigger] mods[j])
    &&& exact ==> forall|i: int| 0 <= i < held.len() ==> required_by(mods, #[trigger] held[i])
}

pub open spec fn rule_fits(r: Rule, k: u16, any: bool, held: Seq<u16>, exact: bool) -> bool {
    &&& if any {
        r.trigger.key == TriggerKey::Any
    } else {
        r.trigger.key == TriggerKey::Key(k)
    }
    &&& trigger_fits(r.trigger.modifiers@, held, exact)
}

/// The first rule from index `i` on that fits.
pub open spec fn find_rule(rules: Seq<Rule>, k: u16, any: bool, held: Seq<u16>, exact: bool, i: int) -> Option<int>
    decreases rules.len() - i,
{
    if i < 0 || i >= rules.len() {
        None
    } else if rule_fits(rules[i], k, any, held, exact) {
        Some(i)
    } else {
        find_rule(rules, k, any, held, exact, i + 1)
    }
}

/// The rule of a list that a key selects: a rule for the key itself first, then
/// an `ANY` rule, which never applies to a modifier key.
pub open spec fn rule_in(rules: Seq<Rule>, k: u16, held: Seq<u16>, exact: bool) -> Option<int> {
    match find_rule(rules, k, false, held, exact, 0) {
        Some(r) => Some(r),
        None => if is_modifier_key(k) {
            None
        } else {
            find_rule(rules, k, true, held, exact, 0)
        },
    }
}

/// The rules of a group; an index out of range names no rules.
pub open spec fn group_rules(cfg: Config, g: Group) -> Seq<Rule> {
    if g.rules < cfg.remaps@.len() {
        cfg.remaps@[g.rules as int]@
    } else {
        seq![]
    }
}

/// The first group from index `i` on with a rule for the key, and that rule.
pub open spec fn find_group(cfg: Config, groups: Seq<Group>, k: u16, held: Seq<u16>, i: int) -> Option<(int, int)>
    decreases groups.len() - i,
{
    if i < 0 || i >= groups.len() {
        None
    } else {
        match rule_in(group_rules(cfg, groups[i]), k, held, groups[i].exact) {
            Some(r) => Some((i, r)),
            None => find_group(cfg, groups, k, held, i + 1),
        }
    }
}

/// The last group below index `i` with a rule for the key, and that rule: in a
/// merged sub-map, a later entry's rule replaces an earlier one's.
pub open spec fn find_group_rev(cfg: Config, groups: Seq<Group>, k: u16, held: Seq<u16>, i: int) -> Option<(int, int)>
    decreases i,
{
    if i <= 0 || i > groups.len() {
        None
    } else {
        match rule_in(group_rules(cfg, groups[i - 1]), k, held, groups[i - 1].exact) {
            Some(r) => Some((i - 1, r)),
            None => find_group_rev(cfg, groups, k, held, i - 1),
        }
    }
}

pub open spec fn is_pure_remap(acts: Seq<KeymapAction>) -> bool {
    acts.len() == 1 && acts[0] is Remap
}

/// The sub-maps that a list of actions installs, in order.
pub open spec fn remaps_in(acts: Seq<KeymapAction>, exact: bool, origin: usize) -> Seq<Group>
    decreases acts.len(),
{
    if acts.len() == 0 {
        seq![]
    } else {
        let g = remaps_in(acts.drop_last(), exact, origin);
        match acts.last() {
            KeymapAction::Remap(i) => g.push(Group { rules: i, exact, origin }),
            _ => g,
        }
    }
}

pub open spec fn same_matcher(a: Option<Matcher>, b: Option<Matcher>) -> bool {
    match (a, b) {
        (None, None) => true,
        (Some(x), Some(y)) => x.only == y.only && x.patterns@.len() == y.patterns@.len() && forall|i: int|
            0 <= i < x.patterns@.len() ==> (#[trigger] x.patterns@[i])@ == y.patterns@[i]@,
        _ => false,
    }
}

/// Two keymap entries have equal predicates and the same matching policy; an
/// index that names no entry equals itself only.
pub open spec fn same_predicates(cfg: Config, a: usize, b: usize) -> bool {
    if a < cfg.keymap@.len() && b < cfg.keymap@.len() {
        let x = cfg.keymap@[a as int];
        let y = cfg.keymap@[b as int];
        x.exact_match == y.exact_match && same_matcher(x.application, y.application) && same_matcher(
            x.window,
            y.window,
        ) && same_matcher(x.device, y.device)
    } else {
        a == b
    }
}

/// Sub-maps of the groups with index in `[i, hi)` that come from an entry with
/// the predicates of `origin` and whose rule for the key only installs a
/// sub-map: together, in declaration order, they form one merged sub-map.
pub open spec fn collect_remaps(cfg: Config, groups: Seq<Group>, k: u16, held: Seq<u16>, origin: usize, i: int, hi: int) -> Seq<Group>
    decreases hi - i,
{
    if i < 0 || i >= hi || i >= groups.len() {
        seq![]
    } else {
        let rest = collect_remaps(cfg, groups, k, held, origin, i + 1, hi);
        match rule_in(group_rules(cfg, groups[i]), k, held, groups[i].exact) {
            Some(r) => {
                let acts = group_rules(cfg, groups[i])[r].actions@;
                if is_pure_remap(acts) && same_predicates(cfg, origin, groups[i].origin) {
                    seq![Group { rules: acts[0]->Remap_0, exact: groups[i].exact, origin: groups[i].origin }] + rest
                } else {
                    rest
                }
            },
            None => rest,
        }
    }
}

fn held_satisfies_exec(held: &Vec<u16>, m: Modifier) -> (r: bool)
    ensures
        r == held_satisfies(held@, m),
{
    let mut i: usize = 0;
    while i < held.len()
        invariant
            i <= held@.len(),
            forall|j: int| 0 <= j < i ==> !modifier_matches(m, #[trigger] held@[j]),
        decreases held@.len() - i,
    {
        if matches_modifier(m, held[i]) {
            return true;
        }
        i = i + 1;
    }
    false
}

fn required_by_exec(mods: &Vec<Modifier>, c: u16) -> (r: bool)
    ensures
        r == required_by(mods@, c),
{
    let mut j: usize = 0;
    while j < mods.len()
        invariant
            j <= mods@.len(),
            forall|i: int| 0 <= i < j ==> !modifier_matches(#[trigger] mods@[i], c),
        decreases mods@.len() - j,
    {
        if matches_modifier(mods[j], c) {
            return true;
        }
        j = j + 1;
    }
    false
}

fn trigger_fits_exec(mods: &Vec<Modifier>, held: &Vec<u16>, exact: bool) -> (r: bool)
    ensures
        r == trigger_fits(mods@, held@, exact),
{
    let mut j: usize = 0;
    while j < mods.len()
        invariant
            j <= mods@.len(),
            forall|i: int| 0 <= i < j ==> held_satisfies(held@, #[trigger] mods@[i]),
        decreases mods@.len() - j,
    {
        if !held_satisfies_exec(held, mods[j]) {
            return false;
        }
        j = j + 1;
    }
    if exact {
        let mut i: usize = 0;
        while i < held.len()
            invariant
                exact,
                i <= held@.len(),
                forall|x: int| 0 <= x < i ==> required_by(mods@, #[trigger] held@[x]),
            decreases held@.len() - i,
        {
            if !required_by_exec(mods, held[i]) {
                assert(!required_by(mods@, held@[i as int]));
                return false;
            }
            i = i + 1;
        }
    }
    true
}

fn find_rule_exec(rules: &Vec<Rule>, k: u16, any: bool, held: &Vec<u16>, exact: bool) -> (r: Option<usize>)
    ensures
        r.is_some() == find_rule(rules@, k, any, held@, exact, 0).is_some(),
        r.is_some() ==> r.unwrap() as int == find_rule(rules@, k, any, held@, exact, 0).unwrap(),
{
    let mut i: usize = 0;
    while i < rules.len()
        invariant
            i <= rules@.len(),
            find_rule(rules@, k, any, held@, exact, 0) == find_rule(rules@, k, any, held@, exact, i as int),
        decreases rules@.len() - i,
    {
        let t = &rules[i].trigger;
        let key_ok = if any {
            t.key == TriggerKey::Any
        } else {
            t.key == TriggerKey::Key(k)
        };
        if key_ok && trigger_fits_exec(&t.modifiers, held, exact) {
            return Some(i);
        }
        i = i + 1;
    }
    None
}

fn rule_in_exec(rules: &Vec<Rule>, k: u16, held: &Vec<u16>, exact: bool) -> (r: Option<usize>)
    ensures
        r.is_some() == rule_in(rules@, k, held@, exact).is_some(),
        r.is_some() ==> r.unwrap() as int == rule_in(rules@, k, held@, exact).unwrap(),
{
    match find_rule_exec(rules, k, false, held, exact) {
        Some(r) => Some(r),
        None => if is_modifier(k) {
            None
        } else {
            find_rule_exec(rules, k, true, held, exact)
        },
    }
}

fn find_group_exec(cfg: &Config, groups: &Vec<Group>, k: u16, held: &Vec<u16>) -> (r: Option<(usize, usize)>)
    ensures
        r.is_some() == find_group(*cfg, groups@, k, held@, 0).is_some(),
        r.is_some() ==> r.unwrap().0 as int == find_group(*cfg, groups@, k, held@, 0).unwrap().0
            && r.unwrap().1 as int == find_group(*cfg, groups@, k, held@, 0).unwrap().1,
        r.is_some() ==> r.unwrap().0 < groups@.len() && groups@[r.unwrap().0 as int].rules
            < cfg.remaps@.len() && r.unwrap().1 < cfg.remaps@[groups@[r.unwrap().0 as int].rules as int]@.len(),
{
    let mut i: usize = 0;
    while i < groups.len()
        invariant
            i <= groups@.len(),
            find_group(*cfg, groups@, k, held@, 0) == find_group(*cfg, groups@, k, held@, i as int),
        decreases groups@.len() - i,
    {
        let g = groups[i];
        if g.rules < cfg.remaps.len() {
            match rule_in_exec(&cfg.remaps[g.rules], k, held, g.exact) {
                Some(r) => {
                    proof { lemma_rule_in_bound(group_rules(*cfg, g), k, held@, g.exact); }
                    return Some((i, r));
                },
                None => {},
            }
        }
        i = i + 1;
    }
    None
}

proof fn lemma_find_rule_bound(rules: Seq<Rule>, k: u16, any: bool, held: Seq<u16>, exact: bool, i: int)
    ensures
        find_rule(rules, k, any, held, exact, i) matches Some(r) ==> i <= r < rules.len(),
    decreases rules.len() - i,
{
    if 0 <= i < rules.len() {
        lemma_find_rule_bound(rules, k, any, held, exact, i + 1);
    }
}

proof fn lemma_rule_in_bound(rules: Seq<Rule>, k: u16, held: Seq<u16>, exact: bool)
    ensures
        rule_in(rules, k, held, exact) matches Some(r) ==> 0 <= r < rules.len(),
{
    lemma_find_rule_bound(rules, k, false, held, exact, 0);
    lemma_find_rule_bound(rules, k, true, held, exact, 0);
}

fn remaps_in_exec(acts: &Vec<KeymapAction>, exact: bool, origin: usize) -> (r: Vec<Group>)
    ensures
        r@ == remaps_in(acts@, exact, origin),
{
    let mut r: Vec<Group> = Vec::new();
    let mut i: usize = 0;
    while i < acts.len()
        invariant
            i <= acts@.len(),
            r@ == remaps_in(acts@.take(i as int), exact, origin),
        decreases acts@.len() - i,
    {
        assert(acts@.take(i + 1).drop_last() =~= acts@.take(i as int));
        match &acts[i] {
            KeymapAction::Remap(x) => r.push(Group { rules: *x, exact, origin }),
            _ => {},
        }
        i = i + 1;
    }
    assert(acts@.take(acts@.len() as int) =~= acts@);
    r
}

fn collect_remaps_exec(cfg: &Config, groups: &Vec<Group>, k: u16, held: &Vec<u16>, origin: usize, from: usize, hi: usize) -> (r: Vec<Group>)
    ensures
        r@ == collect_remaps(*cfg, groups@, k, held@, origin, from as int, hi as int),
{
    let mut r: Vec<Group> = Vec::new();
    let mut i: usize = from;
    while i < groups.len() && i < hi
        invariant
            from <= i || i >= groups@.len(),
            r@ + collect_remaps(*cfg, groups@, k, held@, origin, i as int, hi as int) == collect_remaps(*cfg, groups@, k, held@, origin, from as int, hi as int),
        decreases groups@.len() - i,
    {
        let g = groups[i];
        if g.rules < cfg.remaps.len() {
            let rules = &cfg.remaps[g.rules];
            match rule_in_exec(rules, k, held, g.exact) {
                Some(x) => {
                    proof { lemma_rule_in_bound(group_rules(*cfg, g), k, held@, g.exact); }
                    let acts = &rules[x].actions;
                    if acts.len() == 1 && same_predicates_exec(cfg, origin, g.origin) {
                        match &acts[0] {
                            KeymapAction::Remap(y) => {
                                let ghost before = r@;
                                r.push(Group { rules: *y, exact: g.exact, origin: g.origin });
                                assert(r@ + collect_remaps(*cfg, groups@, k, held@, origin, i + 1, hi as int) =~= before + collect_remaps(*cfg, groups@, k, held@, origin, i as int, hi as int));
                            },
                            _ => {},
                        }
                    }
                },
                None => {},
            }
        }
        i = i + 1;
    }
    assert(r@ =~= r@ + collect_remaps(*cfg, groups@, k, held@, origin, i as int, hi as int));
    r
}

fn same_matcher_exec(a: &Option<Matcher>, b: &Option<Matcher>) -> (r: bool)
    ensures
        r == same_matcher(*a, *b),
{
    match (a, b) {
        (None, None) => true,
        (Some(x), Some(y)) => {
            if x.only != y.only || x.patterns.len() != y.patterns.len() {
                return false;
            }
            let mut i: usize = 0;
            while i < x.patterns.len()
                invariant
                    i <= x.patterns@.len(),
                    x.patterns@.len() == y.patterns@.len(),
                    *a == Some(*x),
                    *b == Some(*y),
                    x.only == y.only,
                    forall|j: int| 0 <= j < i ==> (#[trigger] x.patterns@[j])@ == y.patterns@[j]@,
                decreases x.patterns@.len() - i,
            {
                if !string_eq(&x.patterns[i], &y.patterns[i]) {
                    assert(x.patterns@[i as int]@ != y.patterns@[i as int]@);
                    return false;
                }
                i = i + 1;
            }
            true
        },
        _ => false,
    }
}

fn same_predicates_exec(cfg: &Config, a: usize, b: usize) -> (r: bool)
    ensures
        r == same_predicates(*cfg, a, b),
{
    if a < cfg.keymap.len() && b < cfg.keymap.len() {
        let x = &cfg.keymap[a];
        let y = &cfg.keymap[b];
        x.exact_match == y.exact_match && same_matcher_exec(&x.application, &y.application)
            && same_matcher_exec(&x.window, &y.window) && same_matcher_exec(&x.device, &y.device)
    } else {
        a == b
    }
}

fn find_group_rev_exec(cfg: &Config, groups: &Vec<Group>, k: u16, held: &Vec<u16>) -> (r: Option<(usize, usize)>)
    ensures
        r.is_some() == find_group_rev(*cfg, groups@, k, held@, groups@.len() as int).is_some(),
        r.is_some() ==> r.unwrap().0 as int == find_group_rev(*cfg, groups@, k, held@, groups@.len() as int).unwrap().0
            && r.unwrap().1 as int == find_group_rev(*cfg, groups@, k, held@, groups@.len() as int).unwrap().1,
        r.is_some() ==> r.unwrap().0 < groups@.len() && groups@[r.unwrap().0 as int].rules
            < cfg.remaps@.len() && r.unwrap().1 < cfg.remaps@[groups@[r.unwrap().0 as int].rules as int]@.len(),
{
    let mut i: usize = groups.len();
    while i > 0
        invariant
            i <= groups@.len(),
            find_group_rev(*cfg, groups@, k, held@, groups@.len() as int) == find_group_rev(*cfg, groups@, k, held@, i as int),
        decreases i,
    {
        let g = groups[i - 1];
        if g.rules < cfg.remaps.len() {
            match rule_in_exec(&cfg.remaps[g.rules], k, held, g.exact) {
                Some(r) => {
                    proof { lemma_rule_in_bound(group_rules(*cfg, g), k, held@, g.exact); }
                    return Some((i - 1, r));
                },
                None => {},
            }
        }
        i = i - 1;
    }
    None
}


// ---------------------------------------------------------------- output

pub open spec fn keys(codes: Seq<u16>, v: KeyValue) -> Seq<ActionView> {
    codes.map_values(|c: u16| ActionView::Key(c, v))
}

/// Held modifiers that a trigger does not ask for.
pub open spec fn extra_of(held: Seq<u16>, mods: Seq<Modifier>) -> Seq<u16>
    decreases held.len(),
{
    if held.len() == 0 {
        seq![]
    } else {
        let p = extra_of(held.drop_last(), mods);
        if required_by(mods, held.last()) {
            p
        } else {
            p.push(held.last())
        }
    }
}

/// Held modifiers to lift around a chord: those it does not ask for, except the
/// ones the trigger tolerated.
pub open spec fn released_for(held: Seq<u16>, mods: Seq<Modifier>, tol: Seq<u16>) -> Seq<u16>
    decreases held.len(),
{
    if held.len() == 0 {
        seq![]
    } else {
        let p = released_for(held.drop_last(), mods, tol);
        if required_by(mods, held.last()) || tol.contains(held.last()) {
            p
        } else {
            p.push(held.last())
        }
    }
}

/// Keys to press so that every modifier of a chord is held.
pub open spec fn pressed_for(held: Seq<u16>, mods: Seq<Modifier>) -> Seq<u16>
    decreases mods.len(),
{
    if mods.len() == 0 {
        seq![]
    } else {
        let p = pressed_for(held, mods.drop_last());
        if held_satisfies(held, mods.last()) {
            p
        } else {
            p.push(press_code(mods.last()))
        }
    }
}

/// One chord: press the missing modifiers, lift the unwanted ones, tap the key,
/// then restore the modifiers in the opposite order.
pub open spec fn chord_actions(held: Seq<u16>, tol: Seq<u16>, kp: KeyPress, d: u64) -> Seq<ActionView> {
    let miss = pressed_for(held, kp.modifiers@);
    let rel = released_for(held, kp.modifiers@, tol);
    keys(miss, KeyValue::Press) + keys(rel, KeyValue::Release) + seq![
        ActionView::Key(kp.key, KeyValue::Press),
        ActionView::Key(kp.key, KeyValue::Release),
        ActionView::Delay(d),
    ] + keys(rel, KeyValue::Press) + seq![ActionView::Delay(d)] + keys(miss, KeyValue::Release)
}

pub open spec fn dispatch(acts: Seq<KeymapAction>, held: Seq<u16>, tol: Seq<u16>, d: u64) -> Seq<ActionView>
    decreases acts.len(),
{
    if acts.len() == 0 {
        seq![]
    } else {
        dispatch(acts.drop_last(), held, tol, d) + match acts.last() {
            KeymapAction::KeyPress(kp) => chord_actions(held, tol, kp, d),
            KeymapAction::Remap(_) => seq![],
        }
    }
}

fn push_action(out: &mut Vec<Action>, a: Action)
    ensures
        actions_view(final(out)@) == actions_view(old(out)@).push(a@),
{
    out.push(a);
    assert(actions_view(out@) =~= actions_view(old(out)@).push(a@));
}

fn push_keys(out: &mut Vec<Action>, codes: &Vec<u16>, v: KeyValue)
    ensures
        actions_view(final(out)@) == actions_view(old(out)@) + keys(codes@, v),
{
    let mut i: usize = 0;
    while i < codes.len()
        invariant
            i <= codes@.len(),
            actions_view(out@) == actions_view(old(out)@) + keys(codes@.take(i as int), v),
        decreases codes@.len() - i,
    {
        push_action(out, Action::KeyEvent(KeyEvent { code: codes[i], value: v }));
        i = i + 1;
        assert(keys(codes@.take(i as int), v) =~= keys(codes@.take(i - 1), v).push(ActionView::Key(codes@[i - 1], v)));
    }
    assert(codes@.take(codes@.len() as int) =~= codes@);
}

fn contains_code(v: &Vec<u16>, c: u16) -> (r: bool)
    ensures
        r == v@.contains(c),
{
    let mut i: usize = 0;
    while i < v.len()
        invariant
            i <= v@.len(),
            forall|j: int| 0 <= j < i ==> v@[j] != c,
        decreases v@.len() - i,
    {
        if v[i] == c {
            assert(v@[i as int] == c);
            return true;
        }
        i = i + 1;
    }
    false
}

fn extra_exec(held: &Vec<u16>, mods: &Vec<Modifier>) -> (r: Vec<u16>)
    ensures
        r@ == extra_of(held@, mods@),
{
    let mut r: Vec<u16> = Vec::new();
    let mut i: usize = 0;
    while i < held.len()
        invariant
            i <= held@.len(),
            r@ == extra_of(held@.take(i as int), mods@),
        decreases held@.len() - i,
    {
        assert(held@.take(i + 1).drop_last() =~= held@.take(i as int));
        if !required_by_exec(mods, held[i]) {
            r.push(held[i]);
        }
        i = i + 1;
    }
    assert(held@.take(held@.len() as int) =~= held@);
    r
}

fn released_exec(held: &Vec<u16>, mods: &Vec<Modifier>, tol: &Vec<u16>) -> (r: Vec<u16>)
    ensures
        r@ == released_for(held@, mods@, tol@),
{
    let mut r: Vec<u16> = Vec::new();
    let mut i: usize = 0;
    while i < held.len()
        invariant
            i <= held@.len(),
            r@ == released_for(held@.take(i as int), mods@, tol@),
        decreases held@.len() - i,
    {
        assert(held@.take(i + 1).drop_last() =~= held@.take(i as int));
        if !required_by_exec(mods, held[i]) && !contains_code(tol, held[i]) {
            r.push(held[i]);
        }
        i = i + 1;
    }
    assert(held@.take(held@.len() as int) =~= held@);
    r
}

fn pressed_exec(held: &Vec<u16>, mods: &Vec<Modifier>) -> (r: Vec<u16>)
    ensures
        r@ == pressed_for(held@, mods@),
{
    let mut r: Vec<u16> = Vec::new();
    let mut i: usize = 0;
    while i < mods.len()
        invariant
            i <= mods@.len(),
            r@ == pressed_for(held@, mods@.take(i as int)),
        decreases mods@.len() - i,
    {
        assert(mods@.take(i + 1).drop_last() =~= mods@.take(i as int));
        if !held_satisfies_exec(held, mods[i]) {
            r.push(modifier_press_code(mods[i]));
        }
        i = i + 1;
    }
    assert(mods@.take(mods@.len() as int) =~= mods@);
    r
}

fn chord_exec(out: &mut Vec<Action>, held: &Vec<u16>, tol: &Vec<u16>, kp: &KeyPress, d: u64)
    ensures
        actions_view(final(out)@) == actions_view(old(out)@) + chord_actions(held@, tol@, *kp, d),
{
    let miss = pressed_exec(held, &kp.modifiers);
    let rel = released_exec(held, &kp.modifiers, tol);
    push_keys(out, &miss, KeyValue::Press);
    push_keys(out, &rel, KeyValue::Release);
    push_action(out, Action::KeyEvent(KeyEvent { code: kp.key, value: KeyValue::Press }));
    push_action(out, Action::KeyEvent(KeyEvent { code: kp.key, value: KeyValue::Release }));
    push_action(out, Action::Delay(d));
    push_keys(out, &rel, KeyValue::Press);
    push_action(out, Action::Delay(d));
    push_keys(out, &miss, KeyValue::Release);
    assert(actions_view(out@) =~= actions_view(old(out)@) + chord_actions(held@, tol@, *kp, d));
}

fn dispatch_exec(out: &mut Vec<Action>, acts: &Vec<KeymapAction>, held: &Vec<u16>, tol: &Vec<u16>, d: u64)
    ensures
        actions_view(final(out)@) == actions_view(old(out)@) + dispatch(acts@, held@, tol@, d),
{
    let mut i: usize = 0;
    while i < acts.len()
        invariant
            i <= acts@.len(),
            actions_view(out@) == actions_view(old(out)@) + dispatch(acts@.take(i as int), held@, tol@, d),
        decreases acts@.len() - i,
    {
        assert(acts@.take(i + 1).drop_last() =~= acts@.take(i as int));
        match &acts[i] {
            KeymapAction::KeyPress(kp) => {
                chord_exec(out, held, tol, kp, d);
            },
            KeymapAction::Remap(_) => {},
        }
        i = i + 1;
        assert(actions_view(out@) =~= actions_view(old(out)@) + dispatch(acts@.take(i as int), held@, tol@, d));
    }
    assert(acts@.take(acts@.len() as int) =~= acts@);
}

// ---------------------------------------------------------------- state machine

/// The handler's state: the modifier keys held, and the groups of the active
/// sub-map (none when empty).
pub struct HandlerState {
    pub held: Seq<u16>,
    pub submap: Seq<Group>,
}

/// The first modmap rule for a key rewrites it; otherwise it stays.
pub open spec fn modmap_from(rules: Seq<ModmapRule>, k: u16, i: int) -> u16
    decreases rules.len() - i,
{
    if i < 0 || i >= rules.len() {
        k
    } else if rules[i].from == k {
        rules[i].to
    } else {
        modmap_from(rules, k, i + 1)
    }
}

pub open spec fn modmap_of(rules: Seq<ModmapRule>, k: u16) -> u16 {
    modmap_from(rules, k, 0)
}

pub open spec fn with_held(held: Seq<u16>, k: u16) -> Seq<u16> {
    if held.contains(k) {
        held
    } else {
        held.push(k)
    }
}

pub open spec fn without(held: Seq<u16>, k: u16) -> Seq<u16>
    decreases held.len(),
{
    if held.len() == 0 {
        seq![]
    } else {
        let p = without(held.drop_last(), k);
        if held.last() == k {
            p
        } else {
            p.push(held.last())
        }
    }
}

/// The rule a pressed key selects: in the active sub-map first, where the last
/// fitting rule wins, then in the entries that apply, where the first one wins.
/// Gives the groups searched, the group, the rule, and whether it was the sub-map.
pub open spec fn press_match(cfg: Config, st: HandlerState, ctx: Context, dev: InputDeviceInfo, k: u16) -> Option<(Seq<Group>, int, int, bool)> {
    match find_group_rev(cfg, st.submap, k, st.held, st.submap.len() as int) {
        Some(m) => Some((st.submap, m.0, m.1, true)),
        None => {
            let top = top_groups(cfg.keymap@, ctx, dev);
            match find_group(cfg, top, k, st.held, 0) {
                Some(m) => Some((top, m.0, m.1, false)),
                None => None,
            }
        },
    }
}

/// Where the sub-maps merged by a match at group `g` are collected: in the active
/// sub-map, `g` and the groups before it; among the entries, `g` and those after.
pub open spec fn merge_range(groups: Seq<Group>, g: int, sub: bool) -> (int, int) {
    if sub {
        (0, g + 1)
    } else {
        (g, groups.len() as int)
    }
}

/// A matched press: a rule that only installs a sub-map installs the merged
/// sub-map of every group with equal predicates and such a rule for the key,
/// and emits nothing; any other rule emits its chords and installs the
/// sub-maps it names.
pub open spec fn apply_match(cfg: Config, st: HandlerState, groups: Seq<Group>, g: int, r: int, sub: bool, k: u16, d: u64) -> (HandlerState, Seq<ActionView>) {
    let rule = group_rules(cfg, groups[g])[r];
    let acts = rule.actions@;
    let range = merge_range(groups, g, sub);
    if is_pure_remap(acts) {
        (HandlerState { held: st.held, submap: collect_remaps(cfg, groups, k, st.held, groups[g].origin, range.0, range.1) }, seq![])
    } else {
        (
            HandlerState { held: st.held, submap: remaps_in(acts, groups[g].exact, groups[g].origin) },
            dispatch(acts, st.held, extra_of(st.held, rule.trigger.modifiers@), d),
        )
    }
}

/// After a press that nothing matched, a non-modifier key dismisses the sub-map.
pub open spec fn unmatched_submap(st: HandlerState, k: u16) -> Seq<Group> {
    if is_modifier_key(k) {
        st.submap
    } else {
        seq![]
    }
}

/// One key event: modmap first; a press or repeat is matched; what is not
/// matched passes through and updates the held modifiers.
pub open spec fn key_step(cfg: Config, st: HandlerState, ctx: Context, dev: InputDeviceInfo, code: u16, v: KeyValue, d: u64) -> (HandlerState, Seq<ActionView>) {
    let k = modmap_of(cfg.modmap@, code);
    if v == KeyValue::Release {
        (
            HandlerState {
                held: if is_modifier_key(k) {
                    without(st.held, k)
                } else {
                    st.held
                },
                submap: st.submap,
            },
            seq![ActionView::Key(k, v)],
        )
    } else {
        match press_match(cfg, st, ctx, dev, k) {
            Some(m) => apply_match(cfg, st, m.0, m.1, m.2, m.3, k, d),
            None => (
                HandlerState {
                    held: if v == KeyValue::Press && is_modifier_key(k) {
                        with_held(st.held, k)
                    } else {
                        st.held
                    },
                    submap: unmatched_submap(st, k),
                },
                seq![ActionView::Key(k, v)],
            ),
        }
    }
}

/// Progress through a batch: state, relative events waiting to be batched, output.
pub struct Run {
    pub state: HandlerState,
    pub pending: Seq<RelativeEvent>,
    pub out: Seq<ActionView>,
}

pub open spec fn flush(run: Run) -> Run {
    if run.pending.len() > 0 {
        Run { state: run.state, pending: seq![], out: run.out.push(ActionView::Motion(run.pending)) }
    } else {
        run
    }
}

/// New state and key output; waiting motion goes out before any key output.
pub open spec fn emit(run: Run, st: HandlerState, acts: Seq<ActionView>) -> Run {
    if acts.len() == 0 {
        Run { state: st, pending: run.pending, out: run.out }
    } else {
        let f = flush(run);
        Run { state: st, pending: f.pending, out: f.out + acts }
    }
}

/// A relative event is matched as its disguised key; unmatched, it waits to be
/// batched. One that a modmap rewrites is a press and a release of the new key.
pub open spec fn relative_step(cfg: Config, ctx: Context, d: u64, run: Run, dev: InputDeviceInfo, ev: RelativeEvent) -> Run {
    if !is_disguisable(ev) {
        Run { state: run.state, pending: run.pending.push(ev), out: run.out }
    } else {
        let dk = disguised_code(ev) as u16;
        if modmap_of(cfg.modmap@, dk) != dk {
            let s1 = key_step(cfg, run.state, ctx, dev, dk, KeyValue::Press, d);
            let s2 = key_step(cfg, s1.0, ctx, dev, dk, KeyValue::Release, d);
            emit(run, s2.0, s1.1 + s2.1)
        } else {
            match press_match(cfg, run.state, ctx, dev, dk) {
                Some(m) => {
                    let a = apply_match(cfg, run.state, m.0, m.1, m.2, m.3, dk, d);
                    emit(run, a.0, a.1)
                },
                None => Run {
                    state: HandlerState { held: run.state.held, submap: unmatched_submap(run.state, dk) },
                    pending: run.pending.push(ev),
                    out: run.out,
                },
            }
        }
    }
}

pub open spec fn event_step(cfg: Config, ctx: Context, d: u64, run: Run, ev: Event) -> Run {
    match ev {
        Event::KeyEvent(dev, ke) => {
            let s = key_step(cfg, run.state, ctx, dev, ke.code, ke.value, d);
            emit(run, s.0, s.1)
        },
        Event::RelativeEvent(dev, re) => relative_step(cfg, ctx, d, run, dev, re),
        Event::OtherEvent => run,
    }
}

pub open spec fn run_events(cfg: Config, ctx: Context, d: u64, run: Run, evs: Seq<Event>) -> Run
    decreases evs.len(),
{
    if evs.len() == 0 {
        run
    } else {
        event_step(cfg, ctx, d, run_events(cfg, ctx, d, run, evs.drop_last()), evs.last())
    }
}

/// State and output of a whole batch: waiting motion is flushed at its end.
pub open spec fn handle_events(cfg: Config, ctx: Context, d: u64, st: HandlerState, evs: Seq<Event>) -> Run {
    flush(run_events(cfg, ctx, d, Run { state: st, pending: seq![], out: seq![] }, evs))
}

/// What the handler needs from the window manager.
pub trait Client {
    fn supported(&mut self) -> bool;

    fn current_window(&mut self) -> Option<String>;

    fn current_application(&mut self) -> Option<String>;
}

pub struct EventHandler<C: Client> {
    pub client: C,
    /// Held modifier keys, each once.
    pub modifiers: Vec<u16>,
    /// Groups of the active sub-map.
    pub submap: Vec<Group>,
    /// Nanoseconds of each `Delay` around a chord.
    pub keypress_delay: u64,
}

fn modmap_exec(rules: &Vec<ModmapRule>, k: u16) -> (r: u16)
    ensures
        r == modmap_of(rules@, k),
{
    let mut i: usize = 0;
    while i < rules.len()
        invariant
            i <= rules@.len(),
            modmap_of(rules@, k) == modmap_from(rules@, k, i as int),
        decreases rules@.len() - i,
    {
        if rules[i].from == k {
            return rules[i].to;
        }
        i = i + 1;
    }
    k
}

pub open spec fn run_of(st: HandlerState, pending: Seq<RelativeEvent>, out: Seq<Action>) -> Run {
    Run { state: st, pending, out: actions_view(out) }
}

fn append_actions(out: &mut Vec<Action>, acts: Vec<Action>)
    ensures
        actions_view(final(out)@) == actions_view(old(out)@) + actions_view(acts@),
{
    let ghost added = acts@;
    let mut acts = acts;
    out.append(&mut acts);
    assert(out@ == old(out)@ + added);
    assert(actions_view(out@) =~= actions_view(old(out)@) + actions_view(added));
}

impl<C: Client> EventHandler<C> {
    pub open spec fn state(&self) -> HandlerState {
        HandlerState { held: self.modifiers@, submap: self.submap@ }
    }

    pub fn new(client: C, keypress_delay: u64) -> (r: Self)
        ensures
            r.modifiers@.len() == 0,
            r.submap@.len() == 0,
            r.keypress_delay == keypress_delay,
    {
        EventHandler { client, modifiers: Vec::new(), submap: Vec::new(), keypress_delay }
    }

    /// The transport's timer fired: the active sub-map expires.
    pub fn on_timeout(&mut self)
        ensures
            final(self).state() == (HandlerState { held: old(self).state().held, submap: seq![] }),
            final(self).keypress_delay == old(self).keypress_delay,
    {
        self.submap = Vec::new();
        assert(self.submap@ =~= Seq::<Group>::empty());
    }

    fn hold(&mut self, k: u16)
        ensures
            final(self).modifiers@ == with_held(old(self).modifiers@, k),
            final(self).submap@ == old(self).submap@,
            final(self).keypress_delay == old(self).keypress_delay,
    {
        if !contains_code(&self.modifiers, k) {
            self.modifiers.push(k);
        }
    }

    fn unhold(&mut self, k: u16)
        ensures
            final(self).modifiers@ == without(old(self).modifiers@, k),
            final(self).submap@ == old(self).submap@,
            final(self).keypress_delay == old(self).keypress_delay,
    {
        let mut r: Vec<u16> = Vec::new();
        let mut i: usize = 0;
        while i < self.modifiers.len()
            invariant
                i <= self.modifiers@.len(),
                self.modifiers@ == old(self).modifiers@,
                r@ == without(self.modifiers@.take(i as int), k),
            decreases self.modifiers@.len() - i,
        {
            assert(self.modifiers@.take(i + 1).drop_last() =~= self.modifiers@.take(i as int));
            if self.modifiers[i] != k {
                r.push(self.modifiers[i]);
            }
            i = i + 1;
        }
        assert(self.modifiers@.take(self.modifiers@.len() as int) =~= self.modifiers@);
        self.modifiers = r;
    }

    /// Applies the rule at (`g`, `r`) of `groups` to a press of `k`.
    fn apply_match_exec(&mut self, cfg: &Config, groups: &Vec<Group>, g: usize, r: usize, sub: bool, k: u16, out: &mut Vec<Action>)
        requires
            g < groups@.len(),
            groups@[g as int].rules < cfg.remaps@.len(),
            r < cfg.remaps@[groups@[g as int].rules as int]@.len(),
        ensures
            final(self).state() == apply_match(*cfg, old(self).state(), groups@, g as int, r as int, sub, k, old(self).keypress_delay).0,
            actions_view(final(out)@) == actions_view(old(out)@) + apply_match(*cfg, old(self).state(), groups@, g as int, r as int, sub, k, old(self).keypress_delay).1,
            final(self).keypress_delay == old(self).keypress_delay,
    {
        let grp = groups[g];
        let rule = &cfg.remaps[grp.rules][r];
        let acts = &rule.actions;
        if acts.len() == 1 && matches!(acts[0], KeymapAction::Remap(_)) {
            let n = groups.len();
            let (lo, hi) = if sub {
                (0, g + 1)
            } else {
                (g, n)
            };
            let merged = collect_remaps_exec(cfg, groups, k, &self.modifiers, grp.origin, lo, hi);
            self.submap = merged;
        } else {
            let tol = extra_exec(&self.modifiers, &rule.trigger.modifiers);
            dispatch_exec(out, acts, &self.modifiers, &tol, self.keypress_delay);
            let installed = remaps_in_exec(acts, grp.exact, grp.origin);
            self.submap = installed;
        }
    }

    /// Matches a pressed key; with no match only the sub-map may change.
    fn on_press(&mut self, cfg: &Config, ctx: &Context, dev: &InputDeviceInfo, k: u16, out: &mut Vec<Action>) -> (matched: bool)
        ensures
            matched == press_match(*cfg, old(self).state(), *ctx, *dev, k).is_some(),
            matched ==> ({
                let m = press_match(*cfg, old(self).state(), *ctx, *dev, k).unwrap();
                let a = apply_match(*cfg, old(self).state(), m.0, m.1, m.2, m.3, k, old(self).keypress_delay);
                final(self).state() == a.0 && actions_view(final(out)@) == actions_view(old(out)@) + a.1
            }),
            !matched ==> final(self).state() == (HandlerState {
                held: old(self).state().held,
                submap: unmatched_submap(old(self).state(), k),
            }) && final(out)@ == old(out)@,
            final(self).keypress_delay == old(self).keypress_delay,
    {
        match find_group_rev_exec(cfg, &self.submap, k, &self.modifiers) {
            Some((g, r)) => {
                let groups = self.submap.clone();
                assert(groups@ == self.submap@);
                self.apply_match_exec(cfg, &groups, g, r, true, k, out);
                return true;
            },
            None => {},
        }
        let top = top_groups_exec(&cfg.keymap, ctx, dev);
        match find_group_exec(cfg, &top, k, &self.modifiers) {
            Some((g, r)) => {
                self.apply_match_exec(cfg, &top, g, r, false, k, out);
                true
            },
            None => {
                if !is_modifier(k) {
                    self.submap = Vec::new();
                }
                assert(self.state() == (HandlerState {
                    held: old(self).state().held,
                    submap: unmatched_submap(old(self).state(), k),
                }));
                false
            },
        }
    }

    fn flush_exec(pending: &mut Vec<RelativeEvent>, out: &mut Vec<Action>, Ghost(st): Ghost<HandlerState>)
        ensures
            run_of(st, final(pending)@, final(out)@) == flush(run_of(st, old(pending)@, old(out)@)),
    {
        if pending.len() > 0 {
            let mut batch: Vec<RelativeEvent> = Vec::new();
            batch.append(pending);
            assert(batch@ == old(pending)@);
            push_action(out, Action::MouseMovementEventCollection(batch));
            assert(pending@ =~= Seq::<RelativeEvent>::empty());
        }
    }

    fn emit_exec(pending: &mut Vec<RelativeEvent>, out: &mut Vec<Action>, acts: Vec<Action>, Ghost(st): Ghost<HandlerState>, Ghost(old_st): Ghost<HandlerState>)
        ensures
            run_of(st, final(pending)@, final(out)@) == emit(run_of(old_st, old(pending)@, old(out)@), st, actions_view(acts@)),
    {
        if acts.len() > 0 {
            Self::flush_exec(pending, out, Ghost(old_st));
            append_actions(out, acts);
        } else {
            assert(actions_view(acts@).len() == 0);
        }
    }

    fn event_step_exec(&mut self, cfg: &Config, ctx: &Context, ev: &Event, pending: &mut Vec<RelativeEvent>, out: &mut Vec<Action>)
        ensures
            run_of(final(self).state(), final(pending)@, final(out)@) == event_step(*cfg, *ctx, old(self).keypress_delay, run_of(old(self).state(), old(pending)@, old(out)@), *ev),
            final(self).keypress_delay == old(self).keypress_delay,
    {
        let ghost st0 = self.state();
        match ev {
            Event::KeyEvent(dev, ke) => {
                let mut acts: Vec<Action> = Vec::new();
                self.key_step_exec(cfg, ctx, dev, ke.code, ke.value, &mut acts);
                assert(actions_view(acts@) =~= seq![] + actions_view(acts@));
                Self::emit_exec(pending, out, acts, Ghost(self.state()), Ghost(st0));
            },
            Event::RelativeEvent(dev, re) => {
                if re.code > MAX_DISGUISED_AXIS {
                    pending.push(*re);
                } else {
                    let dk = disguise(*re);
                    if modmap_exec(&cfg.modmap, dk) != dk {
                        let mut acts: Vec<Action> = Vec::new();
                        self.key_step_exec(cfg, ctx, dev, dk, KeyValue::Press, &mut acts);
                        self.key_step_exec(cfg, ctx, dev, dk, KeyValue::Release, &mut acts);
                        assert(actions_view(acts@) =~= seq![] + key_step(*cfg, st0, *ctx, *dev, dk, KeyValue::Press, self.keypress_delay).1 + key_step(*cfg, key_step(*cfg, st0, *ctx, *dev, dk, KeyValue::Press, self.keypress_delay).0, *ctx, *dev, dk, KeyValue::Release, self.keypress_delay).1);
                        Self::emit_exec(pending, out, acts, Ghost(self.state()), Ghost(st0));
                    } else {
                        let mut acts: Vec<Action> = Vec::new();
                        if self.on_press(cfg, ctx, dev, dk, &mut acts) {
                            assert(actions_view(acts@) =~= seq![] + actions_view(acts@));
                            Self::emit_exec(pending, out, acts, Ghost(self.state()), Ghost(st0));
                        } else {
                            pending.push(*re);
                        }
                    }
                }
            },
            Event::OtherEvent => {},
        }
    }

    /// Handles a batch of events in a known window context.
    pub fn on_events_in_context(&mut self, events: &Vec<Event>, config: &Config, ctx: &Context) -> (r: Vec<Action>)
        ensures
            final(self).state() == handle_events(*config, *ctx, old(self).keypress_delay, old(self).state(), events@).state,
            actions_view(r@) == handle_events(*config, *ctx, old(self).keypress_delay, old(self).state(), events@).out,
            final(self).keypress_delay == old(self).keypress_delay,
    {
        let ghost st0 = self.state();
        let ghost d = self.keypress_delay;
        let mut pending: Vec<RelativeEvent> = Vec::new();
        let mut out: Vec<Action> = Vec::new();
        let mut i: usize = 0;
        assert(actions_view(out@) =~= seq![]);
        while i < events.len()
            invariant
                i <= events@.len(),
                self.keypress_delay == d,
                run_of(self.state(), pending@, out@) == run_events(*config, *ctx, d, Run { state: st0, pending: seq![], out: seq![] }, events@.take(i as int)),
            decreases events@.len() - i,
        {
            assert(events@.take(i + 1).drop_last() =~= events@.take(i as int));
            self.event_step_exec(config, ctx, &events[i], &mut pending, &mut out);
            i = i + 1;
        }
        assert(events@.take(events@.len() as int) =~= events@);
        Self::flush_exec(&mut pending, &mut out, Ghost(self.state()));
        out
    }

    /// Handles a batch of events, asking the client for the focused window once.
    pub fn on_events(&mut self, events: &Vec<Event>, config: &Config) -> (r: Vec<Action>)
        ensures
            exists|ctx: Context|
                final(self).state() == (#[trigger] handle_events(*config, ctx, old(self).keypress_delay, old(self).state(), events@)).state
                && actions_view(r@) == handle_events(*config, ctx, old(self).keypress_delay, old(self).state(), events@).out,
            final(self).keypress_delay == old(self).keypress_delay,
    {
        let ghost st0 = self.state();
        let ghost d0 = self.keypress_delay;
        let application = self.client.current_application();
        let window = self.client.current_window();
        let ctx = Context { application, window };
        assert(self.state() == st0);
        let r = self.on_events_in_context(events, config, &ctx);
        assert(self.state() == handle_events(*config, ctx, d0, st0, events@).state);
        assert(old(self).state() == st0);
        r
    }

    fn key_step_exec(&mut self, cfg: &Config, ctx: &Context, dev: &InputDeviceInfo, code: u16, v: KeyValue, out: &mut Vec<Action>)
        ensures
            final(self).state() == key_step(*cfg, old(self).state(), *ctx, *dev, code, v, old(self).keypress_delay).0,
            actions_view(final(out)@) == actions_view(old(out)@) + key_step(*cfg, old(self).state(), *ctx, *dev, code, v, old(self).keypress_delay).1,
            final(self).keypress_delay == old(self).keypress_delay,
    {
        let k = modmap_exec(&cfg.modmap, code);
        if v == KeyValue::Release {
            if is_modifier(k) {
                self.unhold(k);
            }
            push_action(out, Action::KeyEvent(KeyEvent { code: k, value: v }));
            assert(actions_view(out@) =~= actions_view(old(out)@) + seq![ActionView::Key(k, v)]);
        } else {
            if !self.on_press(cfg, ctx, dev, k, out) {
                if v == KeyValue::Press && is_modifier(k) {
                    self.hold(k);
                }
                push_action(out, Action::KeyEvent(KeyEvent { code: k, value: v }));
                assert(actions_view(out@) =~= actions_view(old(out)@) + seq![ActionView::Key(k, v)]);
            }
        }
    }
}

} // verus!


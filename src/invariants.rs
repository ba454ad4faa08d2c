use crate::config::{is_modifier_key, press_code, Config, KeyPress, KeymapAction, Modifier, ModmapRule};
use crate::event::{disguised_code, is_disguisable, ActionView, Event, InputDeviceInfo, KeyEvent, KeyValue, RelativeEvent, DISGUISED_EVENT_OFFSETTER};
use crate::handler::{
    apply_match, chord_actions, dispatch, emit, event_step, extra_of, flush, handle_events,
    is_pure_remap, key_step, keys, modmap_of, press_match, pressed_for, released_for, run_events,
    top_groups, with_held, without, Context, Group, HandlerState, Run,
};
use vstd::prelude::*;

verus! {

/// The relative events of a batch, in order.
pub open spec fn relatives_of(evs: Seq<Event>) -> Seq<RelativeEvent>
    decreases evs.len(),
{
    if evs.len() == 0 {
        seq![]
    } else {
        let p = relatives_of(evs.drop_last());
        match evs.last() {
            Event::RelativeEvent(_, r) => p.push(r),
            _ => p,
        }
    }
}

/// The contents of the motion batches of an output, batch after batch.
pub open spec fn motions_of(out: Seq<ActionView>) -> Seq<RelativeEvent>
    decreases out.len(),
{
    if out.len() == 0 {
        seq![]
    } else {
        motions_of(out.drop_last()) + match out.last() {
            ActionView::Motion(m) => m,
            _ => seq![],
        }
    }
}

/// `a` is `b` with some elements left out, the rest in the same order.
pub open spec fn is_subsequence(a: Seq<RelativeEvent>, b: Seq<RelativeEvent>) -> bool
    decreases b.len(),
{
    if a.len() == 0 {
        true
    } else if b.len() == 0 {
        false
    } else if a.last() == b.last() {
        is_subsequence(a.drop_last(), b.drop_last())
    } else {
        is_subsequence(a, b.drop_last())
    }
}

pub open spec fn no_motion(s: Seq<ActionView>) -> bool {
    forall|i: int| 0 <= i < s.len() ==> !(#[trigger] s[i] is Motion)
}

proof fn lemma_no_motion_none(s: Seq<ActionView>)
    requires
        no_motion(s),
    ensures
        motions_of(s) == Seq::<RelativeEvent>::empty(),
    decreases s.len(),
{
    if s.len() > 0 {
        lemma_no_motion_none(s.drop_last());
        assert(!(s[s.len() - 1] is Motion));
        assert(motions_of(s) =~= Seq::<RelativeEvent>::empty());
    }
}

proof fn lemma_motions_append(x: Seq<ActionView>, y: Seq<ActionView>)
    ensures
        motions_of(x + y) == motions_of(x) + motions_of(y),
    decreases y.len(),
{
    if y.len() == 0 {
        assert(x + y =~= x);
        assert(motions_of(y) =~= Seq::<RelativeEvent>::empty());
        assert(motions_of(x) + motions_of(y) =~= motions_of(x));
    } else {
        lemma_motions_append(x, y.drop_last());
        assert((x + y).drop_last() =~= x + y.drop_last());
        assert((x + y).last() == y.last());
        let tail = match y.last() {
            ActionView::Motion(m) => m,
            _ => seq![],
        };
        assert(motions_of(x) + motions_of(y) =~= motions_of(x) + motions_of(y.drop_last()) + tail);
    }
}

proof fn lemma_chord_no_motion(held: Seq<u16>, tol: Seq<u16>, kp: KeyPress, d: u64)
    ensures
        no_motion(chord_actions(held, tol, kp, d)),
{
}

proof fn lemma_dispatch_no_motion(acts: Seq<KeymapAction>, held: Seq<u16>, tol: Seq<u16>, d: u64)
    ensures
        no_motion(dispatch(acts, held, tol, d)),
    decreases acts.len(),
{
    if acts.len() > 0 {
        lemma_dispatch_no_motion(acts.drop_last(), held, tol, d);
        match acts.last() {
            KeymapAction::KeyPress(kp) => lemma_chord_no_motion(held, tol, kp, d),
            _ => {},
        }
    }
}

proof fn lemma_apply_no_motion(cfg: Config, st: HandlerState, groups: Seq<Group>, g: int, r: int, sub: bool, k: u16, d: u64)
    ensures
        no_motion(apply_match(cfg, st, groups, g, r, sub, k, d).1),
{
    let rule = crate::handler::group_rules(cfg, groups[g])[r];
    lemma_dispatch_no_motion(rule.actions@, st.held, crate::handler::extra_of(st.held, rule.trigger.modifiers@), d);
}

proof fn lemma_key_step_no_motion(cfg: Config, st: HandlerState, ctx: Context, dev: InputDeviceInfo, code: u16, v: KeyValue, d: u64)
    ensures
        no_motion(key_step(cfg, st, ctx, dev, code, v, d).1),
{
    let k = crate::handler::modmap_of(cfg.modmap@, code);
    if v != KeyValue::Release {
        match press_match(cfg, st, ctx, dev, k) {
            Some(m) => lemma_apply_no_motion(cfg, st, m.0, m.1, m.2, m.3, k, d),
            None => {},
        }
    }
}

/// Motion output so far together with the motion still waiting.
pub open spec fn motion_so_far(run: Run) -> Seq<RelativeEvent> {
    motions_of(run.out) + run.pending
}

proof fn lemma_flush_keeps_motion(run: Run)
    ensures
        motion_so_far(flush(run)) == motion_so_far(run),
        flush(run).pending.len() == 0,
{
    if run.pending.len() > 0 {
        let o = run.out.push(ActionView::Motion(run.pending));
        assert(o.drop_last() =~= run.out);
        assert(motion_so_far(flush(run)) =~= motion_so_far(run));
    }
}

proof fn lemma_emit_keeps_motion(run: Run, st: HandlerState, acts: Seq<ActionView>)
    requires
        no_motion(acts),
    ensures
        motion_so_far(emit(run, st, acts)) == motion_so_far(run),
{
    if acts.len() > 0 {
        let f = flush(run);
        lemma_flush_keeps_motion(run);
        lemma_motions_append(f.out, acts);
        lemma_no_motion_none(acts);
        assert(motion_so_far(emit(run, st, acts)) =~= motion_so_far(f));
    }
}

proof fn lemma_drop_last_subsequence(a: Seq<RelativeEvent>, b: Seq<RelativeEvent>)
    requires
        is_subsequence(a, b),
        a.len() > 0,
    ensures
        is_subsequence(a.drop_last(), b),
    decreases b.len(),
{
    let a1 = a.drop_last();
    if b.len() > 0 && a1.len() > 0 {
        if a.last() == b.last() {
            if a1.last() == b.last() {
                lemma_drop_last_subsequence(a1, b.drop_last());
            }
        } else {
            lemma_drop_last_subsequence(a, b.drop_last());
            if a1.last() == b.last() {
                lemma_drop_last_subsequence(a1, b.drop_last());
            }
        }
    }
}

proof fn lemma_subsequence_extend(a: Seq<RelativeEvent>, b: Seq<RelativeEvent>, e: RelativeEvent)
    requires
        is_subsequence(a, b),
    ensures
        is_subsequence(a, b.push(e)),
        is_subsequence(a.push(e), b.push(e)),
{
    assert(b.push(e).drop_last() =~= b);
    assert(a.push(e).drop_last() =~= a);
    if a.len() > 0 && a.last() == e {
        lemma_drop_last_subsequence(a, b);
    }
}

proof fn lemma_event_step_order(cfg: Config, ctx: Context, d: u64, run: Run, evs: Seq<Event>, ev: Event)
    requires
        is_subsequence(motion_so_far(run), relatives_of(evs)),
    ensures
        is_subsequence(motion_so_far(event_step(cfg, ctx, d, run, ev)), relatives_of(evs.push(ev))),
{
    assert(evs.push(ev).drop_last() =~= evs);
    let before = motion_so_far(run);
    match ev {
        Event::KeyEvent(dev, ke) => {
            lemma_key_step_no_motion(cfg, run.state, ctx, dev, ke.code, ke.value, d);
            let s = key_step(cfg, run.state, ctx, dev, ke.code, ke.value, d);
            lemma_emit_keeps_motion(run, s.0, s.1);
        },
        Event::RelativeEvent(dev, re) => {
            lemma_subsequence_extend(before, relatives_of(evs), re);
            if !is_disguisable(re) {
                assert(motion_so_far(event_step(cfg, ctx, d, run, ev)) =~= before.push(re));
            } else {
                let dk = disguised_code(re) as u16;
                if crate::handler::modmap_of(cfg.modmap@, dk) != dk {
                    let s1 = key_step(cfg, run.state, ctx, dev, dk, KeyValue::Press, d);
                    let s2 = key_step(cfg, s1.0, ctx, dev, dk, KeyValue::Release, d);
                    lemma_key_step_no_motion(cfg, run.state, ctx, dev, dk, KeyValue::Press, d);
                    lemma_key_step_no_motion(cfg, s1.0, ctx, dev, dk, KeyValue::Release, d);
                    assert(no_motion(s1.1 + s2.1)) by {
                        assert forall|i: int| 0 <= i < (s1.1 + s2.1).len() implies !(#[trigger] (s1.1 + s2.1)[i] is Motion) by {
                            if i < s1.1.len() {
                                assert((s1.1 + s2.1)[i] == s1.1[i]);
                            } else {
                                assert((s1.1 + s2.1)[i] == s2.1[i - s1.1.len()]);
                            }
                        }
                    }
                    lemma_emit_keeps_motion(run, s2.0, s1.1 + s2.1);
                } else {
                    match press_match(cfg, run.state, ctx, dev, dk) {
                        Some(m) => {
                            lemma_apply_no_motion(cfg, run.state, m.0, m.1, m.2, m.3, dk, d);
                            let a = apply_match(cfg, run.state, m.0, m.1, m.2, m.3, dk, d);
                            lemma_emit_keeps_motion(run, a.0, a.1);
                        },
                        None => {
                            assert(motion_so_far(event_step(cfg, ctx, d, run, ev)) =~= before.push(re));
                        },
                    }
                }
            }
        },
        Event::OtherEvent => {},
    }
}

proof fn lemma_run_order(cfg: Config, ctx: Context, d: u64, run: Run, evs: Seq<Event>)
    requires
        motion_so_far(run).len() == 0,
    ensures
        is_subsequence(motion_so_far(run_events(cfg, ctx, d, run, evs)), relatives_of(evs)),
    decreases evs.len(),
{
    if evs.len() > 0 {
        lemma_run_order(cfg, ctx, d, run, evs.drop_last());
        lemma_event_step_order(cfg, ctx, d, run_events(cfg, ctx, d, run, evs.drop_last()), evs.drop_last(), evs.last());
        assert(evs.drop_last().push(evs.last()) =~= evs);
    }
}

/// Relative events leave in motion batches in the order they came in: read
/// batch after batch, the batches of one call hold a subsequence of the call's
/// inbound relative events.
pub proof fn lemma_motion_order_kept(cfg: Config, ctx: Context, d: u64, st: HandlerState, evs: Seq<Event>)
    ensures
        is_subsequence(motions_of(handle_events(cfg, ctx, d, st, evs).out), relatives_of(evs)),
{
    let run0 = Run { state: st, pending: seq![], out: seq![] };
    assert(motion_so_far(run0) =~= Seq::<RelativeEvent>::empty());
    lemma_run_order(cfg, ctx, d, run0, evs);
    let last = run_events(cfg, ctx, d, run0, evs);
    lemma_flush_keeps_motion(last);
    assert(motion_so_far(flush(last)) =~= motions_of(flush(last).out));
}

/// Disguised codes lie above every real scancode and do not overflow `u16`.
pub proof fn lemma_disguise_bounds()
    ensures
        0x2e7 < DISGUISED_EVENT_OFFSETTER,
        DISGUISED_EVENT_OFFSETTER + 26 <= u16::MAX,
        forall|ev: RelativeEvent|
            is_disguisable(ev) ==> 0x2e7 < #[trigger] disguised_code(ev) <= DISGUISED_EVENT_OFFSETTER + 25,
{
}

/// How many times an action occurs in an output.
pub open spec fn count_of(s: Seq<ActionView>, a: ActionView) -> nat
    decreases s.len(),
{
    if s.len() == 0 {
        0
    } else {
        count_of(s.drop_last(), a) + if s.last() == a {
            1nat
        } else {
            0nat
        }
    }
}

proof fn lemma_count_append(x: Seq<ActionView>, y: Seq<ActionView>, a: ActionView)
    ensures
        count_of(x + y, a) == count_of(x, a) + count_of(y, a),
    decreases y.len(),
{
    if y.len() == 0 {
        assert(x + y =~= x);
    } else {
        lemma_count_append(x, y.drop_last(), a);
        assert((x + y).drop_last() =~= x + y.drop_last());
    }
}

proof fn lemma_count_keys_absent(c: Seq<u16>, v: KeyValue, k: u16)
    requires
        !c.contains(k),
    ensures
        count_of(keys(c, v), ActionView::Key(k, KeyValue::Press)) == 0,
    decreases c.len(),
{
    if c.len() > 0 {
        assert(keys(c, v).drop_last() =~= keys(c.drop_last(), v));
        assert(!c.drop_last().contains(k)) by {
            if c.drop_last().contains(k) {
                let i = choose|i: int| 0 <= i < c.drop_last().len() && c.drop_last()[i] == k;
                assert(c[i] == k);
            }
        }
        assert(c[c.len() - 1] != k);
        lemma_count_keys_absent(c.drop_last(), v, k);
    }
}

proof fn lemma_count_keys_other_value(c: Seq<u16>, k: u16)
    ensures
        count_of(keys(c, KeyValue::Release), ActionView::Key(k, KeyValue::Press)) == 0,
    decreases c.len(),
{
    if c.len() > 0 {
        assert(keys(c, KeyValue::Release).drop_last() =~= keys(c.drop_last(), KeyValue::Release));
        lemma_count_keys_other_value(c.drop_last(), k);
    }
}

proof fn lemma_released_within(held: Seq<u16>, mods: Seq<Modifier>, tol: Seq<u16>, k: u16)
    requires
        !held.contains(k),
    ensures
        !released_for(held, mods, tol).contains(k),
    decreases held.len(),
{
    if held.len() > 0 {
        assert(!held.drop_last().contains(k)) by {
            if held.drop_last().contains(k) {
                let i = choose|i: int| 0 <= i < held.drop_last().len() && held.drop_last()[i] == k;
                assert(held[i] == k);
            }
        }
        assert(held[held.len() - 1] != k);
        lemma_released_within(held.drop_last(), mods, tol, k);
    }
}

proof fn lemma_pressed_within(held: Seq<u16>, mods: Seq<Modifier>, k: u16)
    requires
        forall|j: int| 0 <= j < mods.len() ==> press_code(#[trigger] mods[j]) != k,
    ensures
        !pressed_for(held, mods).contains(k),
    decreases mods.len(),
{
    if mods.len() > 0 {
        assert(press_code(mods[mods.len() - 1]) != k);
        lemma_pressed_within(held, mods.drop_last(), k);
    }
}

/// A press that no rule matches comes out unchanged but for the modmap: one
/// press of the rewritten code, and nothing else.
pub proof fn lemma_unmatched_press_passes(cfg: Config, st: HandlerState, ctx: Context, dev: InputDeviceInfo, code: u16, d: u64)
    requires
        press_match(cfg, st, ctx, dev, modmap_of(cfg.modmap@, code)).is_none(),
    ensures
        key_step(cfg, st, ctx, dev, code, KeyValue::Press, d).1 == seq![ActionView::Key(modmap_of(cfg.modmap@, code), KeyValue::Press)],
{
}

/// A chord presses its key exactly once, when that key is neither held nor
/// pressed for one of the chord's modifiers.
pub proof fn lemma_chord_presses_key_once(held: Seq<u16>, tol: Seq<u16>, kp: KeyPress, d: u64)
    requires
        !held.contains(kp.key),
        forall|j: int| 0 <= j < kp.modifiers@.len() ==> press_code(#[trigger] kp.modifiers@[j]) != kp.key,
    ensures
        count_of(chord_actions(held, tol, kp, d), ActionView::Key(kp.key, KeyValue::Press)) == 1,
{
    let a = ActionView::Key(kp.key, KeyValue::Press);
    let miss = pressed_for(held, kp.modifiers@);
    let rel = released_for(held, kp.modifiers@, tol);
    lemma_pressed_within(held, kp.modifiers@, kp.key);
    lemma_released_within(held, kp.modifiers@, tol, kp.key);
    lemma_count_keys_absent(miss, KeyValue::Press, kp.key);
    lemma_count_keys_other_value(rel, kp.key);
    lemma_count_keys_absent(rel, KeyValue::Press, kp.key);
    lemma_count_keys_other_value(miss, kp.key);
    let mid = seq![a, ActionView::Key(kp.key, KeyValue::Release), ActionView::Delay(d)];
    assert(count_of(mid, a) == 1) by {
        let m1 = seq![a];
        let m2 = seq![a, ActionView::Key(kp.key, KeyValue::Release)];
        assert(m1.drop_last() =~= Seq::<ActionView>::empty());
        assert(count_of(Seq::<ActionView>::empty(), a) == 0);
        assert(count_of(m1, a) == 1);
        assert(m2.drop_last() =~= m1);
        assert(count_of(m2, a) == 1);
        assert(mid.drop_last() =~= m2);
    }
    let d1 = seq![ActionView::Delay(d)];
    assert(count_of(d1, a) == 0) by {
        assert(d1.drop_last() =~= Seq::<ActionView>::empty());
        assert(count_of(Seq::<ActionView>::empty(), a) == 0);
    }
    let x1 = keys(miss, KeyValue::Press);
    let x2 = keys(rel, KeyValue::Release);
    let x4 = keys(rel, KeyValue::Press);
    let x6 = keys(miss, KeyValue::Release);
    lemma_count_append(x1, x2, a);
    lemma_count_append(x1 + x2, mid, a);
    lemma_count_append(x1 + x2 + mid, x4, a);
    lemma_count_append(x1 + x2 + mid + x4, d1, a);
    lemma_count_append(x1 + x2 + mid + x4 + d1, x6, a);
}

/// Presses minus releases of a key in an output.
pub open spec fn balance(s: Seq<ActionView>, k: u16) -> int {
    count_of(s, ActionView::Key(k, KeyValue::Press)) - count_of(s, ActionView::Key(k, KeyValue::Release))
}

/// No prefix of `s` releases `k` more often than it presses it, given `base`
/// presses of it before `s`.
pub open spec fn prefixes_balanced(s: Seq<ActionView>, k: u16, base: int) -> bool {
    forall|n: int| 0 <= n <= s.len() ==> #[trigger] balance(s.take(n), k) + base >= 0
}

pub open spec fn occurrences(c: Seq<u16>, k: u16) -> nat
    decreases c.len(),
{
    if c.len() == 0 {
        0
    } else {
        occurrences(c.drop_last(), k) + if c.last() == k {
            1nat
        } else {
            0nat
        }
    }
}

proof fn lemma_balance_append(x: Seq<ActionView>, y: Seq<ActionView>, k: u16)
    ensures
        balance(x + y, k) == balance(x, k) + balance(y, k),
{
    lemma_count_append(x, y, ActionView::Key(k, KeyValue::Press));
    lemma_count_append(x, y, ActionView::Key(k, KeyValue::Release));
}

proof fn lemma_prefixes_concat(x: Seq<ActionView>, y: Seq<ActionView>, k: u16, base: int)
    requires
        prefixes_balanced(x, k, base),
        prefixes_balanced(y, k, base + balance(x, k)),
    ensures
        prefixes_balanced(x + y, k, base),
        balance(x + y, k) == balance(x, k) + balance(y, k),
{
    lemma_balance_append(x, y, k);
    assert forall|n: int| 0 <= n <= (x + y).len() implies #[trigger] balance((x + y).take(n), k) + base >= 0 by {
        if n <= x.len() {
            assert((x + y).take(n) =~= x.take(n));
        } else {
            assert((x + y).take(n) =~= x + y.take(n - x.len()));
            lemma_balance_append(x, y.take(n - x.len()), k);
            assert(x.take(x.len() as int) =~= x);
        }
    }
}

proof fn lemma_single_prefixes(a: ActionView, k: u16, base: int)
    requires
        base >= 0,
        base + balance(seq![a], k) >= 0,
    ensures
        prefixes_balanced(seq![a], k, base),
{
    assert forall|n: int| 0 <= n <= 1 implies #[trigger] balance(seq![a].take(n), k) + base >= 0 by {
        if n == 0 {
            assert(seq![a].take(0) =~= Seq::<ActionView>::empty());
        } else {
            assert(seq![a].take(1) =~= seq![a]);
        }
    }
}

proof fn lemma_single_balance(a: ActionView, k: u16)
    ensures
        balance(seq![a], k) == (if a == ActionView::Key(k, KeyValue::Press) {
            1int
        } else if a == ActionView::Key(k, KeyValue::Release) {
            -1int
        } else {
            0int
        }),
{
    assert(seq![a].drop_last() =~= Seq::<ActionView>::empty());
    assert(seq![a].last() == a);
    assert(count_of(Seq::<ActionView>::empty(), ActionView::Key(k, KeyValue::Press)) == 0);
    assert(count_of(Seq::<ActionView>::empty(), ActionView::Key(k, KeyValue::Release)) == 0);
}

proof fn lemma_keys_prefixes(c: Seq<u16>, v: KeyValue, k: u16, base: int)
    requires
        v != KeyValue::Repeat,
        base >= 0,
        v == KeyValue::Release ==> base >= occurrences(c, k),
    ensures
        prefixes_balanced(keys(c, v), k, base),
        balance(keys(c, v), k) == if v == KeyValue::Press {
            occurrences(c, k) as int
        } else {
            -(occurrences(c, k) as int)
        },
    decreases c.len(),
{
    if c.len() == 0 {
        assert(keys(c, v) =~= Seq::<ActionView>::empty());
        assert(keys(c, v).take(0) =~= Seq::<ActionView>::empty());
    } else {
        let a = ActionView::Key(c.last(), v);
        lemma_keys_prefixes(c.drop_last(), v, k, base);
        assert(keys(c, v) =~= keys(c.drop_last(), v) + seq![a]);
        lemma_single_balance(a, k);
        lemma_single_prefixes(a, k, base + balance(keys(c.drop_last(), v), k));
        lemma_prefixes_concat(keys(c.drop_last(), v), seq![a], k, base);
    }
}

proof fn lemma_occurrences_absent(c: Seq<u16>, k: u16)
    requires
        !c.contains(k),
    ensures
        occurrences(c, k) == 0,
    decreases c.len(),
{
    if c.len() > 0 {
        assert(!c.drop_last().contains(k)) by {
            if c.drop_last().contains(k) {
                let i = choose|i: int| 0 <= i < c.drop_last().len() && c.drop_last()[i] == k;
                assert(c[i] == k);
            }
        }
        assert(c[c.len() - 1] != k);
        lemma_occurrences_absent(c.drop_last(), k);
    }
}

proof fn lemma_occurrences_distinct(c: Seq<u16>, k: u16)
    requires
        c.no_duplicates(),
    ensures
        occurrences(c, k) <= if c.contains(k) {
            1nat
        } else {
            0nat
        },
    decreases c.len(),
{
    if c.len() > 0 {
        let p = c.drop_last();
        assert(p.no_duplicates());
        if c.last() == k {
            assert(!p.contains(k)) by {
                if p.contains(k) {
                    let i = choose|i: int| 0 <= i < p.len() && p[i] == k;
                    assert(c[i] == c[c.len() - 1]);
                }
            }
            lemma_occurrences_absent(p, k);
            assert(c.contains(k)) by {
                assert(c[c.len() - 1] == k);
            }
        } else {
            lemma_occurrences_distinct(p, k);
            if p.contains(k) {
                let i = choose|i: int| 0 <= i < p.len() && p[i] == k;
                assert(c[i] == k);
            }
        }
    }
}

proof fn lemma_released_occurrences(held: Seq<u16>, mods: Seq<Modifier>, tol: Seq<u16>, k: u16)
    ensures
        occurrences(released_for(held, mods, tol), k) <= occurrences(held, k),
    decreases held.len(),
{
    if held.len() > 0 {
        lemma_released_occurrences(held.drop_last(), mods, tol, k);
        let p = released_for(held.drop_last(), mods, tol);
        assert(p.push(held.last()).drop_last() =~= p);
    }
}

/// One chord never lifts a key it has not pressed: for every key and every
/// prefix of a chord's output, releases are at most presses, plus one for a key
/// held before the chord. The held keys are distinct, as the handler keeps them.
pub proof fn lemma_chord_releases_bounded(held: Seq<u16>, tol: Seq<u16>, kp: KeyPress, d: u64, k: u16)
    requires
        held.no_duplicates(),
    ensures
        prefixes_balanced(chord_actions(held, tol, kp, d), k, if held.contains(k) {
            1int
        } else {
            0int
        }),
        balance(chord_actions(held, tol, kp, d), k) == 0,
{
    let h: int = if held.contains(k) {
        1int
    } else {
        0int
    };
    let miss = pressed_for(held, kp.modifiers@);
    let rel = released_for(held, kp.modifiers@, tol);
    lemma_released_occurrences(held, kp.modifiers@, tol, k);
    lemma_occurrences_distinct(held, k);
    let om = occurrences(miss, k) as int;
    let or = occurrences(rel, k) as int;
    assert(or <= h);
    let x1 = keys(miss, KeyValue::Press);
    let x2 = keys(rel, KeyValue::Release);
    let pk = ActionView::Key(kp.key, KeyValue::Press);
    let rk = ActionView::Key(kp.key, KeyValue::Release);
    let dl = ActionView::Delay(d);
    let x4 = keys(rel, KeyValue::Press);
    let x6 = keys(miss, KeyValue::Release);
    lemma_keys_prefixes(miss, KeyValue::Press, k, h);
    lemma_keys_prefixes(rel, KeyValue::Release, k, h + om);
    lemma_prefixes_concat(x1, x2, k, h);
    let b2 = h + om - or;
    lemma_single_balance(pk, k);
    lemma_single_balance(rk, k);
    lemma_single_balance(dl, k);
    lemma_single_prefixes(pk, k, b2);
    lemma_single_prefixes(rk, k, b2 + balance(seq![pk], k));
    lemma_single_prefixes(dl, k, b2);
    lemma_prefixes_concat(seq![pk], seq![rk], k, b2);
    lemma_prefixes_concat(seq![pk] + seq![rk], seq![dl], k, b2);
    let mid = seq![pk, rk, dl];
    assert(mid =~= seq![pk] + seq![rk] + seq![dl]);
    lemma_prefixes_concat(x1 + x2, mid, k, h);
    lemma_keys_prefixes(rel, KeyValue::Press, k, b2);
    lemma_prefixes_concat(x1 + x2 + mid, x4, k, h);
    lemma_single_prefixes(dl, k, h + om);
    lemma_prefixes_concat(x1 + x2 + mid + x4, seq![dl], k, h);
    lemma_keys_prefixes(miss, KeyValue::Release, k, h + om);
    lemma_prefixes_concat(x1 + x2 + mid + x4 + seq![dl], x6, k, h);
    assert(chord_actions(held, tol, kp, d) =~= x1 + x2 + mid + x4 + seq![dl] + x6);
}

pub open spec fn held_bonus(held: Seq<u16>, k: u16) -> int {
    if held.contains(k) {
        1
    } else {
        0
    }
}

proof fn lemma_prefixes_weaken(s: Seq<ActionView>, k: u16, b: int, b2: int)
    requires
        prefixes_balanced(s, k, b),
        b2 >= b,
    ensures
        prefixes_balanced(s, k, b2),
{
    assert forall|n: int| 0 <= n <= s.len() implies #[trigger] balance(s.take(n), k) + b2 >= 0 by {
        assert(balance(s.take(n), k) + b >= 0);
    }
}

proof fn lemma_dispatch_balanced(acts: Seq<KeymapAction>, held: Seq<u16>, tol: Seq<u16>, d: u64, k: u16)
    requires
        held.no_duplicates(),
    ensures
        prefixes_balanced(dispatch(acts, held, tol, d), k, held_bonus(held, k)),
        balance(dispatch(acts, held, tol, d), k) == 0,
    decreases acts.len(),
{
    if acts.len() == 0 {
        let e = Seq::<ActionView>::empty();
        assert(dispatch(acts, held, tol, d) =~= e);
        assert(e.take(0) =~= e);
        assert(count_of(e, ActionView::Key(k, KeyValue::Press)) == 0);
        assert(count_of(e, ActionView::Key(k, KeyValue::Release)) == 0);
    } else {
        lemma_dispatch_balanced(acts.drop_last(), held, tol, d, k);
        let p = dispatch(acts.drop_last(), held, tol, d);
        match acts.last() {
            KeymapAction::KeyPress(kp) => {
                lemma_chord_releases_bounded(held, tol, kp, d, k);
                lemma_prefixes_concat(p, chord_actions(held, tol, kp, d), k, held_bonus(held, k));
            },
            KeymapAction::Remap(_) => {
                let e = Seq::<ActionView>::empty();
                assert(p + e =~= p);
            },
        }
    }
}

proof fn lemma_without_props(held: Seq<u16>, x: u16, k: u16)
    requires
        held.no_duplicates(),
    ensures
        without(held, x).no_duplicates(),
        without(held, x).contains(k) == (k != x && held.contains(k)),
    decreases held.len(),
{
    if held.len() > 0 {
        let p = held.drop_last();
        assert(p.no_duplicates());
        lemma_without_props(p, x, k);
        lemma_without_props(p, x, held.last());
        let w = without(p, x);
        if held.last() != x {
            assert(!p.contains(held.last())) by {
                if p.contains(held.last()) {
                    let i = choose|i: int| 0 <= i < p.len() && p[i] == held.last();
                    assert(held[i] == held[held.len() - 1]);
                }
            }
            assert(w.push(held.last()).no_duplicates()) by {
                assert forall|i: int, j: int| 0 <= i < j < w.push(held.last()).len() implies w.push(held.last())[i] != w.push(held.last())[j] by {
                    if j == w.len() {
                        assert(w.push(held.last())[i] == w[i]);
                    }
                }
            }
        }
        assert(held =~= p.push(held.last()));
        if held.contains(k) && !p.contains(k) {
            let i = choose|i: int| 0 <= i < held.len() && held[i] == k;
            assert(i == held.len() - 1);
        }
        if p.contains(k) {
            let i = choose|i: int| 0 <= i < p.len() && p[i] == k;
            assert(held[i] == k);
        }
        if held.last() != x {
            assert(w.push(held.last())[w.len() as int] == held.last());
            if w.push(held.last()).contains(k) && !w.contains(k) {
                let i = choose|i: int| 0 <= i < w.push(held.last()).len() && w.push(held.last())[i] == k;
                assert(i == w.len());
            }
            if w.contains(k) {
                let i = choose|i: int| 0 <= i < w.len() && w[i] == k;
                assert(w.push(held.last())[i] == k);
            }
        }
    }
}

proof fn lemma_with_held_props(held: Seq<u16>, x: u16, k: u16)
    requires
        held.no_duplicates(),
    ensures
        with_held(held, x).no_duplicates(),
        with_held(held, x).contains(k) == (k == x || held.contains(k)),
{
    if !held.contains(x) {
        let h2 = held.push(x);
        assert forall|i: int, j: int| 0 <= i < j < h2.len() implies h2[i] != h2[j] by {
            if j == held.len() {
                assert(h2[i] == held[i]);
            }
        }
        assert(h2[held.len() as int] == x);
        if h2.contains(k) && k != x {
            let i = choose|i: int| 0 <= i < h2.len() && h2[i] == k;
            assert(held[i] == k);
        }
        if held.contains(k) {
            let i = choose|i: int| 0 <= i < held.len() && held[i] == k;
            assert(h2[i] == k);
        }
    }
}

/// Output of one step from `st` to `st2`, for key `k`: every prefix balanced
/// against the bonus of `st`, and the whole against the bonus of `st2`.
pub open spec fn step_balanced(st: HandlerState, st2: HandlerState, acts: Seq<ActionView>, k: u16) -> bool {
    &&& st2.held.no_duplicates()
    &&& prefixes_balanced(acts, k, held_bonus(st.held, k))
    &&& balance(acts, k) + held_bonus(st.held, k) >= held_bonus(st2.held, k)
}

proof fn lemma_single_step(st: HandlerState, st2: HandlerState, a: ActionView, k: u16)
    requires
        st2.held.no_duplicates(),
        held_bonus(st.held, k) + balance(seq![a], k) >= 0,
        held_bonus(st.held, k) + balance(seq![a], k) >= held_bonus(st2.held, k),
    ensures
        step_balanced(st, st2, seq![a], k),
{
    lemma_single_prefixes(a, k, held_bonus(st.held, k));
}

pub open spec fn release_finds_held(cfg: Config, st: HandlerState, code: u16, v: KeyValue) -> bool {
    v == KeyValue::Release && is_modifier_key(modmap_of(cfg.modmap@, code)) ==> st.held.contains(modmap_of(cfg.modmap@, code))
}

proof fn lemma_apply_balanced(cfg: Config, st: HandlerState, groups: Seq<Group>, g: int, r: int, sub: bool, x: u16, d: u64, k: u16)
    requires
        st.held.no_duplicates(),
    ensures
        step_balanced(st, apply_match(cfg, st, groups, g, r, sub, x, d).0, apply_match(cfg, st, groups, g, r, sub, x, d).1, k),
{
    let rule = crate::handler::group_rules(cfg, groups[g])[r];
    let acts = rule.actions@;
    if is_pure_remap(acts) {
        let e = Seq::<ActionView>::empty();
        assert(e.take(0) =~= e);
        assert(count_of(e, ActionView::Key(k, KeyValue::Press)) == 0);
        assert(count_of(e, ActionView::Key(k, KeyValue::Release)) == 0);
    } else {
        lemma_dispatch_balanced(acts, st.held, extra_of(st.held, rule.trigger.modifiers@), d, k);
    }
}

proof fn lemma_key_step_balanced(cfg: Config, st: HandlerState, ctx: Context, dev: InputDeviceInfo, code: u16, v: KeyValue, d: u64, k: u16)
    requires
        st.held.no_duplicates(),
        is_modifier_key(k),
        release_finds_held(cfg, st, code, v),
    ensures
        step_balanced(st, key_step(cfg, st, ctx, dev, code, v, d).0, key_step(cfg, st, ctx, dev, code, v, d).1, k),
{
    let x = modmap_of(cfg.modmap@, code);
    let s = key_step(cfg, st, ctx, dev, code, v, d);
    lemma_single_balance(ActionView::Key(x, v), k);
    if v == KeyValue::Release {
        if is_modifier_key(x) {
            lemma_without_props(st.held, x, k);
        }
        lemma_single_step(st, s.0, ActionView::Key(x, v), k);
    } else {
        match press_match(cfg, st, ctx, dev, x) {
            Some(m) => lemma_apply_balanced(cfg, st, m.0, m.1, m.2, m.3, x, d, k),
            None => {
                if v == KeyValue::Press && is_modifier_key(x) {
                    lemma_with_held_props(st.held, x, k);
                }
                lemma_single_step(st, s.0, ActionView::Key(x, v), k);
            },
        }
    }
}

/// Invariant of a batch in progress, for one key.
pub open spec fn run_balanced(run: Run, start: Seq<u16>, k: u16) -> bool {
    &&& run.state.held.no_duplicates()
    &&& prefixes_balanced(run.out, k, held_bonus(start, k))
    &&& balance(run.out, k) + held_bonus(start, k) >= held_bonus(run.state.held, k)
}

proof fn lemma_flush_balanced(run: Run, start: Seq<u16>, k: u16)
    requires
        run_balanced(run, start, k),
    ensures
        run_balanced(flush(run), start, k),
{
    if run.pending.len() > 0 {
        let a = ActionView::Motion(run.pending);
        lemma_single_balance(a, k);
        lemma_single_prefixes(a, k, balance(run.out, k) + held_bonus(start, k));
        lemma_prefixes_concat(run.out, seq![a], k, held_bonus(start, k));
        assert(run.out.push(a) =~= run.out + seq![a]);
    }
}

proof fn lemma_emit_balanced(run: Run, st2: HandlerState, acts: Seq<ActionView>, start: Seq<u16>, k: u16)
    requires
        run_balanced(run, start, k),
        step_balanced(run.state, st2, acts, k),
    ensures
        run_balanced(emit(run, st2, acts), start, k),
{
    if acts.len() > 0 {
        lemma_flush_balanced(run, start, k);
        let f = flush(run);
        lemma_prefixes_weaken(acts, k, held_bonus(run.state.held, k), held_bonus(start, k) + balance(f.out, k));
        lemma_prefixes_concat(f.out, acts, k, held_bonus(start, k));
    } else {
        assert(acts =~= Seq::<ActionView>::empty());
        assert(count_of(acts, ActionView::Key(k, KeyValue::Press)) == 0);
        assert(count_of(acts, ActionView::Key(k, KeyValue::Release)) == 0);
    }
}

/// What each event of a batch owes for modifier releases to stay balanced: a
/// release of a modifier key finds it held, and a relative event that the
/// modmap turns into a modifier key is not matched by a rule.
pub open spec fn event_releases_held(cfg: Config, ctx: Context, st: HandlerState, ev: Event) -> bool {
    match ev {
        Event::KeyEvent(_, ke) => release_finds_held(cfg, st, ke.code, ke.value),
        Event::RelativeEvent(dev, re) => {
            let dk = disguised_code(re) as u16;
            let x = modmap_of(cfg.modmap@, dk);
            is_disguisable(re) && x != dk && is_modifier_key(x) ==> press_match(cfg, st, ctx, dev, x).is_none()
        },
        Event::OtherEvent => true,
    }
}

pub open spec fn releases_follow_presses(cfg: Config, ctx: Context, d: u64, st: HandlerState, evs: Seq<Event>) -> bool {
    forall|i: int|
        0 <= i < evs.len() ==> event_releases_held(
            cfg,
            ctx,
            (#[trigger] run_events(cfg, ctx, d, Run { state: st, pending: seq![], out: seq![] }, evs.take(i))).state,
            evs[i],
        )
}

proof fn lemma_event_step_balanced(cfg: Config, ctx: Context, d: u64, run: Run, ev: Event, start: Seq<u16>, k: u16)
    requires
        run_balanced(run, start, k),
        is_modifier_key(k),
        event_releases_held(cfg, ctx, run.state, ev),
    ensures
        run_balanced(event_step(cfg, ctx, d, run, ev), start, k),
{
    match ev {
        Event::KeyEvent(dev, ke) => {
            lemma_key_step_balanced(cfg, run.state, ctx, dev, ke.code, ke.value, d, k);
            let s = key_step(cfg, run.state, ctx, dev, ke.code, ke.value, d);
            lemma_emit_balanced(run, s.0, s.1, start, k);
        },
        Event::RelativeEvent(dev, re) => {
            if is_disguisable(re) {
                let dk = disguised_code(re) as u16;
                if modmap_of(cfg.modmap@, dk) != dk {
                    lemma_key_step_balanced(cfg, run.state, ctx, dev, dk, KeyValue::Press, d, k);
                    let s1 = key_step(cfg, run.state, ctx, dev, dk, KeyValue::Press, d);
                    let x = modmap_of(cfg.modmap@, dk);
                    if is_modifier_key(x) {
                        assert(s1.0.held == with_held(run.state.held, x));
                        lemma_with_held_props(run.state.held, x, x);
                    }
                    lemma_key_step_balanced(cfg, s1.0, ctx, dev, dk, KeyValue::Release, d, k);
                    let s2 = key_step(cfg, s1.0, ctx, dev, dk, KeyValue::Release, d);
                    lemma_prefixes_weaken(s2.1, k, held_bonus(s1.0.held, k), held_bonus(run.state.held, k) + balance(s1.1, k));
                    lemma_prefixes_concat(s1.1, s2.1, k, held_bonus(run.state.held, k));
                    lemma_emit_balanced(run, s2.0, s1.1 + s2.1, start, k);
                } else {
                    match press_match(cfg, run.state, ctx, dev, dk) {
                        Some(m) => {
                            lemma_apply_balanced(cfg, run.state, m.0, m.1, m.2, m.3, dk, d, k);
                            let a = apply_match(cfg, run.state, m.0, m.1, m.2, m.3, dk, d);
                            lemma_emit_balanced(run, a.0, a.1, start, k);
                        },
                        None => {},
                    }
                }
            }
        },
        Event::OtherEvent => {},
    }
}

proof fn lemma_run_balanced(cfg: Config, ctx: Context, d: u64, st: HandlerState, evs: Seq<Event>, k: u16)
    requires
        st.held.no_duplicates(),
        is_modifier_key(k),
        releases_follow_presses(cfg, ctx, d, st, evs),
    ensures
        run_balanced(run_events(cfg, ctx, d, Run { state: st, pending: seq![], out: seq![] }, evs), st.held, k),
    decreases evs.len(),
{
    let run0 = Run { state: st, pending: seq![], out: seq![] };
    if evs.len() == 0 {
        let e = Seq::<ActionView>::empty();
        assert(e.take(0) =~= e);
        assert(count_of(e, ActionView::Key(k, KeyValue::Press)) == 0);
        assert(count_of(e, ActionView::Key(k, KeyValue::Release)) == 0);
    } else {
        let p = evs.drop_last();
        assert forall|i: int| 0 <= i < p.len() implies event_releases_held(
            cfg,
            ctx,
            (#[trigger] run_events(cfg, ctx, d, run0, p.take(i))).state,
            p[i],
        ) by {
            assert(p.take(i) =~= evs.take(i));
            assert(event_releases_held(cfg, ctx, run_events(cfg, ctx, d, run0, evs.take(i)).state, evs[i]));
        }
        lemma_run_balanced(cfg, ctx, d, st, p, k);
        let i = evs.len() - 1;
        assert(evs.take(i) =~= p);
        assert(event_releases_held(cfg, ctx, run_events(cfg, ctx, d, run0, evs.take(i)).state, evs[i]));
        lemma_event_step_balanced(cfg, ctx, d, run_events(cfg, ctx, d, run0, p), evs.last(), st.held, k);
    }
}

/// No prefix of a batch's output releases a modifier key more often than it
/// presses it, counting one earlier press for a key held when the batch begins,
/// as long as each inbound release of a modifier finds it held and no relative
/// event that the modmap turns into a modifier key is matched by a rule.
pub proof fn lemma_modifier_releases_bounded(cfg: Config, ctx: Context, d: u64, st: HandlerState, evs: Seq<Event>, k: u16)
    requires
        st.held.no_duplicates(),
        is_modifier_key(k),
        releases_follow_presses(cfg, ctx, d, st, evs),
    ensures
        prefixes_balanced(handle_events(cfg, ctx, d, st, evs).out, k, held_bonus(st.held, k)),
{
    lemma_run_balanced(cfg, ctx, d, st, evs, k);
    lemma_flush_balanced(run_events(cfg, ctx, d, Run { state: st, pending: seq![], out: seq![] }, evs), st.held, k);
}

/// The key events of a batch as output actions.
pub open spec fn key_views(evs: Seq<Event>) -> Seq<ActionView> {
    evs.map_values(|e: Event| match e {
        Event::KeyEvent(_, ke) => ActionView::Key(ke.code, ke.value),
        _ => ActionView::Delay(0),
    })
}

proof fn lemma_identity_modmap(rules: Seq<ModmapRule>, k: u16, i: int)
    requires
        forall|j: int| 0 <= j < rules.len() ==> (#[trigger] rules[j]).from == rules[j].to,
    ensures
        crate::handler::modmap_from(rules, k, i) == k,
    decreases rules.len() - i,
{
    if 0 <= i < rules.len() {
        lemma_identity_modmap(rules, k, i + 1);
    }
}

proof fn lemma_no_groups(cfg: Config, k: u16, held: Seq<u16>, i: int)
    ensures
        crate::handler::find_group_rev(cfg, seq![], k, held, i).is_none(),
{
}

proof fn lemma_run_identity(cfg: Config, ctx: Context, d: u64, st: HandlerState, evs: Seq<Event>)
    requires
        cfg.keymap@.len() == 0,
        forall|j: int| 0 <= j < cfg.modmap@.len() ==> (#[trigger] cfg.modmap@[j]).from == cfg.modmap@[j].to,
        st.submap.len() == 0,
        forall|i: int| 0 <= i < evs.len() ==> #[trigger] evs[i] is KeyEvent,
    ensures
        run_events(cfg, ctx, d, Run { state: st, pending: seq![], out: seq![] }, evs).out == key_views(evs),
        run_events(cfg, ctx, d, Run { state: st, pending: seq![], out: seq![] }, evs).pending.len() == 0,
        run_events(cfg, ctx, d, Run { state: st, pending: seq![], out: seq![] }, evs).state.submap.len() == 0,
    decreases evs.len(),
{
    if evs.len() == 0 {
        assert(key_views(evs) =~= Seq::<ActionView>::empty());
    } else {
        let p = evs.drop_last();
        assert forall|i: int| 0 <= i < p.len() implies #[trigger] p[i] is KeyEvent by {
            assert(evs[i] is KeyEvent);
        }
        lemma_run_identity(cfg, ctx, d, st, p);
        let run = run_events(cfg, ctx, d, Run { state: st, pending: seq![], out: seq![] }, p);
        assert(evs[evs.len() - 1] is KeyEvent);
        match evs.last() {
            Event::KeyEvent(dev, ke) => {
                lemma_identity_modmap(cfg.modmap@, ke.code, 0);
                assert(run.state.submap =~= Seq::<Group>::empty());
                lemma_no_groups(cfg, ke.code, run.state.held, 0);
                assert(top_groups(cfg.keymap@, ctx, dev) =~= Seq::<Group>::empty());
                let s = key_step(cfg, run.state, ctx, dev, ke.code, ke.value, d);
                assert(s.1 == seq![ActionView::Key(ke.code, ke.value)]);
                assert(key_views(evs) =~= key_views(p) + s.1);
            },
            _ => {},
        }
    }
}

/// With no keymap entries and a modmap that maps every key to itself, key
/// events pass through unchanged: a batch of key events comes out as exactly
/// those events, from a handler with no active sub-map.
pub proof fn lemma_identity_config_round_trip(cfg: Config, ctx: Context, d: u64, st: HandlerState, evs: Seq<Event>)
    requires
        cfg.keymap@.len() == 0,
        forall|j: int| 0 <= j < cfg.modmap@.len() ==> (#[trigger] cfg.modmap@[j]).from == cfg.modmap@[j].to,
        st.submap.len() == 0,
        forall|i: int| 0 <= i < evs.len() ==> #[trigger] evs[i] is KeyEvent,
    ensures
        handle_events(cfg, ctx, d, st, evs).out == key_views(evs),
{
    lemma_run_identity(cfg, ctx, d, st, evs);
}

/// A relative event that goes to a motion batch: it has no disguised code, or
/// the modmap keeps its code and no rule matches it.
pub open spec fn relative_passes(cfg: Config, ctx: Context, st: HandlerState, dev: InputDeviceInfo, re: RelativeEvent) -> bool {
    let dk = disguised_code(re) as u16;
    !is_disguisable(re) || (modmap_of(cfg.modmap@, dk) == dk && press_match(cfg, st, ctx, dev, dk).is_none())
}

/// The relative events of a batch that match no rule, in order, each judged in
/// the state the handler has when it arrives.
pub open spec fn unmatched_relatives(cfg: Config, ctx: Context, d: u64, st: HandlerState, evs: Seq<Event>) -> Seq<RelativeEvent>
    decreases evs.len(),
{
    if evs.len() == 0 {
        seq![]
    } else {
        let p = unmatched_relatives(cfg, ctx, d, st, evs.drop_last());
        let before = run_events(cfg, ctx, d, Run { state: st, pending: seq![], out: seq![] }, evs.drop_last()).state;
        match evs.last() {
            Event::RelativeEvent(dev, re) => if relative_passes(cfg, ctx, before, dev, re) {
                p.push(re)
            } else {
                p
            },
            _ => p,
        }
    }
}

proof fn lemma_event_step_motion(cfg: Config, ctx: Context, d: u64, run: Run, ev: Event)
    ensures
        motion_so_far(event_step(cfg, ctx, d, run, ev)) == match ev {
            Event::RelativeEvent(dev, re) => if relative_passes(cfg, ctx, run.state, dev, re) {
                motion_so_far(run).push(re)
            } else {
                motion_so_far(run)
            },
            _ => motion_so_far(run),
        },
{
    let before = motion_so_far(run);
    match ev {
        Event::KeyEvent(dev, ke) => {
            lemma_key_step_no_motion(cfg, run.state, ctx, dev, ke.code, ke.value, d);
            let s = key_step(cfg, run.state, ctx, dev, ke.code, ke.value, d);
            lemma_emit_keeps_motion(run, s.0, s.1);
        },
        Event::RelativeEvent(dev, re) => {
            if !is_disguisable(re) {
                assert(motion_so_far(event_step(cfg, ctx, d, run, ev)) =~= before.push(re));
            } else {
                let dk = disguised_code(re) as u16;
                if modmap_of(cfg.modmap@, dk) != dk {
                    let s1 = key_step(cfg, run.state, ctx, dev, dk, KeyValue::Press, d);
                    let s2 = key_step(cfg, s1.0, ctx, dev, dk, KeyValue::Release, d);
                    lemma_key_step_no_motion(cfg, run.state, ctx, dev, dk, KeyValue::Press, d);
                    lemma_key_step_no_motion(cfg, s1.0, ctx, dev, dk, KeyValue::Release, d);
                    assert(no_motion(s1.1 + s2.1)) by {
                        assert forall|i: int| 0 <= i < (s1.1 + s2.1).len() implies !(#[trigger] (s1.1 + s2.1)[i] is Motion) by {
                            if i < s1.1.len() {
                                assert((s1.1 + s2.1)[i] == s1.1[i]);
                            } else {
                                assert((s1.1 + s2.1)[i] == s2.1[i - s1.1.len()]);
                            }
                        }
                    }
                    lemma_emit_keeps_motion(run, s2.0, s1.1 + s2.1);
                } else {
                    match press_match(cfg, run.state, ctx, dev, dk) {
                        Some(m) => {
                            lemma_apply_no_motion(cfg, run.state, m.0, m.1, m.2, m.3, dk, d);
                            let a = apply_match(cfg, run.state, m.0, m.1, m.2, m.3, dk, d);
                            lemma_emit_keeps_motion(run, a.0, a.1);
                        },
                        None => {
                            assert(motion_so_far(event_step(cfg, ctx, d, run, ev)) =~= before.push(re));
                        },
                    }
                }
            }
        },
        Event::OtherEvent => {},
    }
}

proof fn lemma_run_motion(cfg: Config, ctx: Context, d: u64, st: HandlerState, evs: Seq<Event>)
    ensures
        motion_so_far(run_events(cfg, ctx, d, Run { state: st, pending: seq![], out: seq![] }, evs))
            == unmatched_relatives(cfg, ctx, d, st, evs),
    decreases evs.len(),
{
    let run0 = Run { state: st, pending: seq![], out: seq![] };
    if evs.len() == 0 {
        assert(motion_so_far(run0) =~= Seq::<RelativeEvent>::empty());
    } else {
        lemma_run_motion(cfg, ctx, d, st, evs.drop_last());
        lemma_event_step_motion(cfg, ctx, d, run_events(cfg, ctx, d, run0, evs.drop_last()), evs.last());
    }
}

/// What the motion batches of a batch's output hold, batch after batch, is
/// exactly its inbound relative events that matched no rule, in inbound order.
pub proof fn lemma_motion_is_unmatched_relatives(cfg: Config, ctx: Context, d: u64, st: HandlerState, evs: Seq<Event>)
    ensures
        motions_of(handle_events(cfg, ctx, d, st, evs).out) == unmatched_relatives(cfg, ctx, d, st, evs),
{
    lemma_run_motion(cfg, ctx, d, st, evs);
    let last = run_events(cfg, ctx, d, Run { state: st, pending: seq![], out: seq![] }, evs);
    lemma_flush_keeps_motion(last);
    assert(motion_so_far(flush(last)) =~= motions_of(flush(last).out));
}

/// A press and then a release of one key from one device.
pub open spec fn tap(dev: InputDeviceInfo, code: u16) -> Seq<Event> {
    seq![
        Event::KeyEvent(dev, KeyEvent { code, value: KeyValue::Press }),
        Event::KeyEvent(dev, KeyEvent { code, value: KeyValue::Release }),
    ]
}

/// The actions of the rule a press of `x` matches, if any.
pub open spec fn matched_actions(cfg: Config, st: HandlerState, ctx: Context, dev: InputDeviceInfo, x: u16) -> Option<Seq<KeymapAction>> {
    match press_match(cfg, st, ctx, dev, x) {
        Some(m) => Some(crate::handler::group_rules(cfg, m.0[m.1])[m.2].actions@),
        None => None,
    }
}

/// The code a tapped key results in: itself after the modmap when no rule
/// matches, or the key of the one chord its rule emits.
pub open spec fn tap_result(cfg: Config, st: HandlerState, ctx: Context, dev: InputDeviceInfo, code: u16) -> u16 {
    let x = modmap_of(cfg.modmap@, code);
    match matched_actions(cfg, st, ctx, dev, x) {
        Some(acts) => acts[0]->KeyPress_0.key,
        None => x,
    }
}

/// A press that is not suppressed: no rule matches it, or its rule emits one
/// chord whose key is neither held nor pressed for the chord's modifiers.
pub open spec fn tap_not_suppressed(cfg: Config, st: HandlerState, ctx: Context, dev: InputDeviceInfo, code: u16) -> bool {
    let x = modmap_of(cfg.modmap@, code);
    match matched_actions(cfg, st, ctx, dev, x) {
        Some(acts) => acts.len() == 1 && acts[0] is KeyPress && {
            let kp = acts[0]->KeyPress_0;
            !st.held.contains(kp.key) && forall|j: int|
                0 <= j < kp.modifiers@.len() ==> press_code(#[trigger] kp.modifiers@[j]) != kp.key
        },
        None => true,
    }
}

/// A tapped key that no rule suppresses comes out as exactly one press of its
/// resulting code before the output of its release, which ends the output.
pub proof fn lemma_tap_presses_once(cfg: Config, ctx: Context, d: u64, st: HandlerState, dev: InputDeviceInfo, code: u16)
    requires
        tap_not_suppressed(cfg, st, ctx, dev, code),
    ensures
        ({
            let out = handle_events(cfg, ctx, d, st, tap(dev, code)).out;
            &&& out.len() > 0
            &&& out.last() == ActionView::Key(modmap_of(cfg.modmap@, code), KeyValue::Release)
            &&& count_of(out.drop_last(), ActionView::Key(tap_result(cfg, st, ctx, dev, code), KeyValue::Press)) == 1
        }),
{
    let evs = tap(dev, code);
    let run0 = Run { state: st, pending: seq![], out: seq![] };
    let x = modmap_of(cfg.modmap@, code);
    let r = tap_result(cfg, st, ctx, dev, code);
    let a = ActionView::Key(r, KeyValue::Press);
    let e1 = evs[0];
    let e2 = evs[1];
    assert(evs.drop_last() =~= seq![e1]);
    assert(seq![e1].drop_last() =~= Seq::<Event>::empty());
    let s1 = key_step(cfg, st, ctx, dev, code, KeyValue::Press, d);
    let run1 = event_step(cfg, ctx, d, run0, e1);
    assert(run_events(cfg, ctx, d, run0, Seq::<Event>::empty()) == run0);
    assert(seq![e1].last() == e1);
    assert(run_events(cfg, ctx, d, run0, seq![e1]) == run1);
    assert(evs.last() == e2);
    let s2 = key_step(cfg, s1.0, ctx, dev, code, KeyValue::Release, d);
    assert(s2.1 == seq![ActionView::Key(x, KeyValue::Release)]);
    let run2 = event_step(cfg, ctx, d, run1, e2);
    assert(run_events(cfg, ctx, d, run0, evs) == run2);
    assert(run1.pending.len() == 0);
    assert(run2.pending.len() == 0);
    assert(run2.out =~= run1.out + s2.1);
    assert(run1.out =~= Seq::<ActionView>::empty() + s1.1) by {
        if s1.1.len() == 0 {
            assert(run1.out =~= Seq::<ActionView>::empty());
        }
    }
    assert(run2.out.drop_last() =~= s1.1);
    match press_match(cfg, st, ctx, dev, x) {
        Some(m) => {
            let acts = crate::handler::group_rules(cfg, m.0[m.1])[m.2].actions@;
            let kp = acts[0]->KeyPress_0;
            let rule = crate::handler::group_rules(cfg, m.0[m.1])[m.2];
            let tol = extra_of(st.held, rule.trigger.modifiers@);
            assert(acts.drop_last() =~= Seq::<KeymapAction>::empty());
            assert(dispatch(acts.drop_last(), st.held, tol, d) == Seq::<ActionView>::empty());
            assert(acts.last() == acts[0]);
            assert(dispatch(acts, st.held, tol, d) =~= chord_actions(st.held, tol, kp, d));
            lemma_chord_presses_key_once(st.held, tol, kp, d);
        },
        None => {
            assert(s1.1 == seq![ActionView::Key(x, KeyValue::Press)]);
            assert(s1.1.drop_last() =~= Seq::<ActionView>::empty());
            assert(count_of(Seq::<ActionView>::empty(), a) == 0);
        },
    }
}

} // verus!

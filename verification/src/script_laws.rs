//! What holds of every watch and every poll.

use crate::fields;
use crate::script;
use crate::script::{ActionModel, KindModel, RegistryModel, ReleaseModel, TargetModel, WatchModel};
use crate::script_eval;
use crate::script_eval::{EffectsModel, Occasion, PollModel};
use crate::script_spec;
use crate::state::StateModel;
use crate::text;
use vstd::prelude::*;

verus! {

// ---------------------------------------------------------------------------
// Firing
// ---------------------------------------------------------------------------

/// A stride watch that fired at `then` fires at a later poll exactly if at least
/// `every` ticks have passed, whatever polls lay in between: it does not depend
/// on the ticks at which the host polls.
pub proof fn law_stride_waits_its_turn(every: u32, then: u32, s: StateModel, tick: u32)
    requires
        every > 0,
        tick > 0,
    ensures
        script_eval::decided(KindModel::Stride { every, last: then }, s, tick).fires <==> tick
            - then >= every,
        tick - then >= every ==> script_eval::decided(
            KindModel::Stride { every, last: then },
            s,
            tick,
        ).kind == (KindModel::Stride { every, last: tick }),
        tick - then < every ==> script_eval::decided(
            KindModel::Stride { every, last: then },
            s,
            tick,
        ).kind == (KindModel::Stride { every, last: then }),
{
}

/// How many of the ticks `from .. to` a burst watch fires on.
pub open spec fn burst_fires(every: u32, count: u32, from: nat, to: nat) -> nat
    decreases to - from,
{
    if from >= to {
        0
    } else {
        burst_fires(every, count, from, (to - 1) as nat) + (if every > 0 && (to - 1) % (every as int)
            < count {
            1nat
        } else {
            0nat
        })
    }
}

proof fn lemma_burst(every: u32, count: u32, period: nat, k: nat)
    requires
        0 < count <= every,
        k <= every,
    ensures
        burst_fires(every, count, period * every as nat, period * every as nat + k) == (if k
            <= count {
            k
        } else {
            count as nat
        }),
    decreases k,
{
    if k > 0 {
        let start = period * every as nat;
        lemma_burst(every, count, period, (k - 1) as nat);
        let at = start + k - 1;
        assert(at % (every as int) == k - 1) by {
            vstd::arithmetic::div_mod::lemma_mod_multiples_vanish(
                period as int,
                k - 1,
                every as int,
            );
            vstd::arithmetic::div_mod::lemma_small_mod((k - 1) as nat, every as nat);
            assert(every as int * period as int + (k - 1) == at) by (nonlinear_arith)
                requires
                    at == period * every as nat + k - 1,
            ;
        }
        assert((start + k - 1) as nat == at);
    }
}

/// A burst watch fires on exactly `count` ticks of every period.
pub proof fn law_burst_fires_count_times(every: u32, count: u32, period: nat)
    requires
        0 < count <= every,
    ensures
        burst_fires(every, count, period * every as nat, (period + 1) * every as nat) == count,
{
    lemma_burst(every, count, period, every as nat);
    assert((period + 1) * every as nat == period * every as nat + every as nat)
        by (nonlinear_arith);
}

/// A scheduled watch fires at its tick and at no other.
pub proof fn law_at_fires_at_its_tick(at: u32, s: StateModel, tick: u32)
    ensures
        script_eval::decided(KindModel::At { tick: at }, s, tick).fires <==> tick == at,
{
}

/// A condition that does not repeat fires once: after it fired it never fires
/// again, whatever the state.
pub proof fn law_condition_fires_once(
    kind: KindModel,
    s: StateModel,
    tick: u32,
    later: StateModel,
    later_tick: u32,
)
    requires
        kind matches KindModel::Cond { repeat, .. } && !repeat,
        script_eval::decided(kind, s, tick).fires,
    ensures
        ({
            let next = script_eval::decided(kind, s, tick).kind;
            let again = script_eval::decided(next, later, later_tick);
            !again.fires && again.kind == next
        }),
{
}

/// An edge watch does not fire the first time it is looked at, and from then on
/// exactly if the byte differs from what it was the time before.
pub proof fn law_edge_compares_with_last_time(
    addr: i32,
    last: u8,
    primed: bool,
    s: StateModel,
    tick: u32,
    later: StateModel,
    later_tick: u32,
)
    ensures
        ({
            let first = script_eval::decided(KindModel::Edge { addr, last, primed }, s, tick);
            let second = script_eval::decided(first.kind, later, later_tick);
            &&& !primed ==> !first.fires
            &&& second.fires <==> crate::state::low_byte(s.read(addr)) != crate::state::low_byte(
                later.read(addr),
            )
        }),
{
}

// ---------------------------------------------------------------------------
// Pulses
// ---------------------------------------------------------------------------

/// Do all waiting releases have different targets?
pub open spec fn targets_distinct(list: Seq<ReleaseModel>) -> bool {
    forall|i: int, j: int|
        0 <= i < j < list.len() ==> (#[trigger] list[i]).target != (#[trigger] list[j]).target
}

/// Are the waiting releases ordered by tick?
pub open spec fn ticks_ordered(list: Seq<ReleaseModel>) -> bool {
    forall|i: int, j: int|
        0 <= i < j < list.len() ==> (#[trigger] list[i]).tick <= (#[trigger] list[j]).tick
}

proof fn lemma_queued(list: Seq<ReleaseModel>, r: ReleaseModel)
    ensures
        forall|t: TargetModel| #[trigger]
            script_eval::waits(script_eval::queued(list, r), t) <==> script_eval::waits(list, t)
                || t == r.target,
        targets_distinct(list) && !script_eval::waits(list, r.target) ==> targets_distinct(
            script_eval::queued(list, r),
        ),
        ticks_ordered(list) ==> ticks_ordered(script_eval::queued(list, r)),
        ticks_ordered(list) ==> forall|i: int|
            0 <= i < script_eval::queued(list, r).len() ==> (#[trigger] script_eval::queued(
                list,
                r,
            )[i]).tick <= (if list.len() > 0 && list.last().tick > r.tick {
                list.last().tick
            } else {
                r.tick
            }),
    decreases list.len(),
{
    let now = script_eval::queued(list, r);
    if list.len() == 0 || list.last().tick <= r.tick {
        assert forall|t: TargetModel| #[trigger] script_eval::waits(now, t) <==> script_eval::waits(
            list,
            t,
        ) || t == r.target by {
            assert(now[list.len() as int] == r);
            if script_eval::waits(list, t) {
                let i = choose|i: int| 0 <= i < list.len() && (#[trigger] list[i]).target == t;
                assert(now[i].target == t);
            }
            if script_eval::waits(now, t) && t != r.target {
                let i = choose|i: int| 0 <= i < now.len() && (#[trigger] now[i]).target == t;
                assert(list[i].target == t);
            }
        }
        if targets_distinct(list) && !script_eval::waits(list, r.target) {
            assert forall|i: int, j: int| 0 <= i < j < now.len() implies (#[trigger] now[i]).target
                != (#[trigger] now[j]).target by {
                if j < list.len() {
                    assert(list[i].target != list[j].target);
                } else {
                    assert(list[i].target != r.target);
                }
            }
        }
        if ticks_ordered(list) {
            assert forall|i: int, j: int| 0 <= i < j < now.len() implies (#[trigger] now[i]).tick
                <= (#[trigger] now[j]).tick by {
                if j < list.len() {
                    assert(list[i].tick <= list[j].tick);
                } else if i < list.len() - 1 {
                    assert(list[i].tick <= list[list.len() - 1].tick);
                }
            }
            assert forall|i: int| 0 <= i < now.len() implies (#[trigger] now[i]).tick <= r.tick by {
                if i < list.len() - 1 {
                    assert(list[i].tick <= list[list.len() - 1].tick);
                }
            }
        }
    } else {
        let head = list.drop_last();
        let last = list.last();
        let rest = script_eval::queued(head, r);
        lemma_queued(head, r);
        assert forall|t: TargetModel| #[trigger] script_eval::waits(now, t) <==> script_eval::waits(
            list,
            t,
        ) || t == r.target by {
            assert(script_eval::waits(rest, t) <==> script_eval::waits(head, t) || t == r.target);
            assert(now[rest.len() as int] == last);
            assert(list[list.len() - 1] == last);
            if script_eval::waits(rest, t) {
                let i = choose|i: int| 0 <= i < rest.len() && (#[trigger] rest[i]).target == t;
                assert(now[i].target == t);
            }
            if script_eval::waits(head, t) {
                let i = choose|i: int| 0 <= i < head.len() && (#[trigger] head[i]).target == t;
                assert(list[i].target == t);
            }
            if script_eval::waits(now, t) && t != last.target {
                let i = choose|i: int| 0 <= i < now.len() && (#[trigger] now[i]).target == t;
                assert(rest[i].target == t);
            }
            if script_eval::waits(list, t) && t != last.target {
                let i = choose|i: int| 0 <= i < list.len() && (#[trigger] list[i]).target == t;
                assert(head[i].target == t);
            }
        }
        if targets_distinct(list) && !script_eval::waits(list, r.target) {
            assert forall|i: int, j: int| 0 <= i < j < head.len() implies (
            #[trigger] head[i]).target != (#[trigger] head[j]).target by {
                assert(list[i].target != list[j].target);
            }
            assert(!script_eval::waits(head, r.target)) by {
                if script_eval::waits(head, r.target) {
                    let i = choose|i: int|
                        0 <= i < head.len() && (#[trigger] head[i]).target == r.target;
                    assert(list[i].target == r.target);
                }
            }
            assert(last.target != r.target) by {
                assert(list[list.len() - 1].target == last.target);
            }
            assert(!script_eval::waits(rest, last.target)) by {
                if script_eval::waits(head, last.target) {
                    let i = choose|i: int|
                        0 <= i < head.len() && (#[trigger] head[i]).target == last.target;
                    assert(list[i].target != list[list.len() - 1].target);
                }
            }
            assert forall|i: int, j: int| 0 <= i < j < now.len() implies (#[trigger] now[i]).target
                != (#[trigger] now[j]).target by {
                if j < rest.len() {
                    assert(rest[i].target != rest[j].target);
                } else {
                    assert(rest[i].target != last.target);
                }
            }
        }
        if ticks_ordered(list) {
            assert forall|i: int, j: int| 0 <= i < j < head.len() implies (#[trigger] head[i]).tick
                <= (#[trigger] head[j]).tick by {
                assert(list[i].tick <= list[j].tick);
            }
            assert forall|i: int| 0 <= i < rest.len() implies (#[trigger] rest[i]).tick
                <= last.tick by {
                if head.len() > 0 {
                    assert(list[head.len() - 1].tick <= list[list.len() - 1].tick);
                }
            }
            assert forall|i: int, j: int| 0 <= i < j < now.len() implies (#[trigger] now[i]).tick
                <= (#[trigger] now[j]).tick by {
                if j < rest.len() {
                    assert(rest[i].tick <= rest[j].tick);
                } else {
                    assert(rest[i].tick <= last.tick);
                }
            }
            assert forall|i: int| 0 <= i < now.len() implies (#[trigger] now[i]).tick <= last.tick by {
                if i < rest.len() {
                    assert(rest[i].tick <= last.tick);
                }
            }
        }
    }
}

/// Queueing several releases with new targets.
proof fn lemma_all_queued(list: Seq<ReleaseModel>, new: Seq<ReleaseModel>)
    ensures
        forall|t: TargetModel| #[trigger]
            script_eval::waits(script_eval::all_queued(list, new), t) <==> script_eval::waits(
                list,
                t,
            ) || script_eval::waits(new, t),
        targets_distinct(list) && targets_distinct(new) && (forall|t: TargetModel|
            !(#[trigger] script_eval::waits(list, t) && script_eval::waits(new, t)))
            ==> targets_distinct(script_eval::all_queued(list, new)),
        ticks_ordered(list) ==> ticks_ordered(script_eval::all_queued(list, new)),
    decreases new.len(),
{
    if new.len() > 0 {
        let head = new.drop_last();
        let last = new.last();
        let before = script_eval::all_queued(list, head);
        lemma_all_queued(list, head);
        lemma_queued(before, last);
        assert forall|t: TargetModel| #[trigger]
            script_eval::waits(script_eval::all_queued(list, new), t) <==> script_eval::waits(
                list,
                t,
            ) || script_eval::waits(new, t) by {
            assert(script_eval::waits(before, t) <==> script_eval::waits(list, t)
                || script_eval::waits(head, t));
            lemma_waits_split(new, t);
        }
        if targets_distinct(list) && targets_distinct(new) && (forall|t: TargetModel|
            !(#[trigger] script_eval::waits(list, t) && script_eval::waits(new, t))) {
            assert forall|i: int, j: int| 0 <= i < j < head.len() implies (
            #[trigger] head[i]).target != (#[trigger] head[j]).target by {
                assert(new[i].target != new[j].target);
            }
            assert forall|t: TargetModel|
                !(#[trigger] script_eval::waits(list, t) && script_eval::waits(head, t)) by {
                lemma_waits_split(new, t);
            }
            assert(!script_eval::waits(before, last.target)) by {
                lemma_waits_split(new, last.target);
                assert(!(script_eval::waits(list, last.target) && script_eval::waits(
                    new,
                    last.target,
                )));
                if script_eval::waits(head, last.target) {
                    let i = choose|i: int|
                        0 <= i < head.len() && (#[trigger] head[i]).target == last.target;
                    assert(new[i].target != new[new.len() - 1].target);
                }
            }
        }
    } else {
        assert forall|t: TargetModel| !#[trigger] script_eval::waits(new, t) by {}
    }
}

proof fn lemma_waits_split(new: Seq<ReleaseModel>, t: TargetModel)
    requires
        new.len() > 0,
    ensures
        script_eval::waits(new, t) <==> script_eval::waits(new.drop_last(), t) || t
            == new.last().target,
{
    let head = new.drop_last();
    assert(new[new.len() - 1] == new.last());
    if script_eval::waits(head, t) {
        let i = choose|i: int| 0 <= i < head.len() && (#[trigger] head[i]).target == t;
        assert(new[i].target == t);
    }
    if script_eval::waits(new, t) && t != new.last().target {
        let i = choose|i: int| 0 <= i < new.len() && (#[trigger] new[i]).target == t;
        assert(head[i].target == t);
    }
}

/// Are the releases that a watch schedules new: different from each other and
/// from those that wait?
pub open spec fn all_new(e: EffectsModel, o: Occasion) -> bool {
    &&& targets_distinct(e.releases)
    &&& forall|t: TargetModel|
        !(#[trigger] script_eval::waits(o.pending, t) && script_eval::waits(e.releases, t))
}

proof fn lemma_performed(e: EffectsModel, a: ActionModel, o: Occasion)
    requires
        all_new(e, o),
    ensures
        all_new(e.performed(a, o), o),
{
    let target = match a {
        ActionModel::SetVarPulse { name, .. } => TargetModel::Var(name),
        ActionModel::PseudoPulse { pseudo, selector, .. } => TargetModel::Pseudo(pseudo, selector),
        _ => TargetModel::Var(Seq::empty()),
    };
    let next = e.performed(a, o);
    if next.releases != e.releases {
        assert(e.may_pulse(o, target));
        assert(next.releases.drop_last() =~= e.releases);
        assert(next.releases.last().target == target);
        assert forall|i: int, j: int| 0 <= i < j < next.releases.len() implies (
        #[trigger] next.releases[i]).target != (#[trigger] next.releases[j]).target by {
            if j < e.releases.len() {
                assert(e.releases[i].target != e.releases[j].target);
            } else {
                assert(e.releases[i].target != target);
            }
        }
        assert forall|t: TargetModel|
            !(#[trigger] script_eval::waits(o.pending, t) && script_eval::waits(
                next.releases,
                t,
            )) by {
            lemma_waits_split(next.releases, t);
        }
    }
}

proof fn lemma_all_performed(e: EffectsModel, actions: Seq<ActionModel>, o: Occasion)
    requires
        all_new(e, o),
    ensures
        all_new(e.all_performed(actions, o), o),
    decreases actions.len(),
{
    if actions.len() > 0 {
        lemma_all_performed(e, actions.drop_last(), o);
        lemma_performed(e.all_performed(actions.drop_last(), o), actions.last(), o);
    }
}

/// Does the second queue keep what the first one has of different targets, and
/// of order?
pub open spec fn queue_kept(before: RegistryModel, after: RegistryModel) -> bool {
    &&& targets_distinct(before.pending) ==> targets_distinct(after.pending)
    &&& ticks_ordered(before.pending) ==> ticks_ordered(after.pending)
}

proof fn lemma_look_keeps_queue(p: PollModel, i: int, tick: u32)
    ensures
        queue_kept(p.reg, p.looked_at(i, tick).reg),
{
    let d = script_eval::decided(p.reg.watches[i].kind, p.state, tick);
    let reg = p.reg.remembering(i, d.kind);
    let w = reg.watches[i];
    let o = script_eval::occasion(reg, w.name, tick);
    let start = EffectsModel {
        state: d.state,
        emits: false,
        halts: w.kind is Halt,
        dumps: Seq::empty(),
        releases: Seq::empty(),
        files: Seq::empty(),
    };
    assert(all_new(start, o));
    lemma_all_performed(start, w.actions, o);
    let e = reg.effects(i, d.state, tick);
    lemma_all_queued(reg.pending, e.releases);
}

proof fn lemma_first_pass(p: PollModel, tick: u32, n: nat)
    ensures
        queue_kept(p.reg, p.first_pass(tick, n).reg),
    decreases n,
{
    if n > 0 {
        lemma_first_pass(p, tick, (n - 1) as nat);
        lemma_look_keeps_queue(p.first_pass(tick, (n - 1) as nat), n - 1, tick);
    }
}

proof fn lemma_second_pass(p: PollModel, tick: u32, n: nat)
    ensures
        queue_kept(p.reg, p.second_pass(tick, n).reg),
    decreases n,
{
    if n > 0 {
        lemma_second_pass(p, tick, (n - 1) as nat);
        lemma_look_keeps_queue(p.second_pass(tick, (n - 1) as nat), n - 1, tick);
    }
}

/// The pulses that are kept are those that are not due yet, in order.
proof fn lemma_all_released(pending: Seq<ReleaseModel>, s: StateModel, tick: u32)
    ensures
        ({
            let r = script_eval::all_released(pending, s, tick);
            &&& forall|i: int| 0 <= i < r.kept.len() ==> (#[trigger] r.kept[i]).tick > tick
            &&& forall|i: int| 0 <= i < r.kept.len() ==> pending.contains(#[trigger] r.kept[i])
            &&& forall|i: int|
                0 <= i < pending.len() && (#[trigger] pending[i]).tick > tick ==> r.kept.contains(
                    pending[i],
                )
            &&& forall|i: int|
                0 <= i < pending.len() && (#[trigger] pending[i]).tick <= tick
                    ==> r.released.contains(pending[i].target)
            &&& targets_distinct(pending) ==> targets_distinct(r.kept)
            &&& ticks_ordered(pending) ==> ticks_ordered(r.kept)
        }),
    decreases pending.len(),
{
    if pending.len() > 0 {
        let head = pending.drop_last();
        let last = pending.last();
        let before = script_eval::all_released(head, s, tick);
        let r = script_eval::all_released(pending, s, tick);
        lemma_all_released(head, s, tick);
        assert(pending[pending.len() - 1] == last);
        assert forall|x: ReleaseModel| head.contains(x) implies #[trigger] pending.contains(x) by {
            let i = choose|i: int| 0 <= i < head.len() && head[i] == x;
            assert(pending[i] == x);
        }
        assert forall|i: int| 0 <= i < r.kept.len() implies (#[trigger] r.kept[i]).tick > tick
            && pending.contains(r.kept[i]) by {
            if i < before.kept.len() {
                assert(r.kept[i] == before.kept[i]);
                assert(head.contains(before.kept[i]));
            }
        }
        assert forall|i: int| 0 <= i < pending.len() && (#[trigger] pending[i]).tick > tick implies
            r.kept.contains(pending[i]) by {
            if i < head.len() {
                assert(head[i] == pending[i]);
                let k = choose|k: int| 0 <= k < before.kept.len() && before.kept[k] == pending[i];
                assert(r.kept[k] == pending[i]);
            } else {
                assert(r.kept[before.kept.len() as int] == last);
            }
        }
        assert forall|i: int|
            0 <= i < pending.len() && (#[trigger] pending[i]).tick <= tick implies
            r.released.contains(pending[i].target) by {
            if i < head.len() {
                assert(head[i] == pending[i]);
                let k = choose|k: int|
                    0 <= k < before.released.len() && before.released[k] == pending[i].target;
                assert(r.released[k] == pending[i].target);
            } else {
                assert(r.released[before.released.len() as int] == last.target);
            }
        }
        if targets_distinct(pending) {
            assert forall|i: int, j: int| 0 <= i < j < head.len() implies (
            #[trigger] head[i]).target != (#[trigger] head[j]).target by {
                assert(pending[i].target != pending[j].target);
            }
            assert forall|i: int, j: int| 0 <= i < j < r.kept.len() implies (
            #[trigger] r.kept[i]).target != (#[trigger] r.kept[j]).target by {
                if j < before.kept.len() {
                    assert(before.kept[i].target != before.kept[j].target);
                } else {
                    assert(head.contains(before.kept[i]));
                    let k = choose|k: int| 0 <= k < head.len() && head[k] == before.kept[i];
                    assert(pending[k].target != pending[pending.len() - 1].target);
                }
            }
        }
        if ticks_ordered(pending) {
            assert forall|i: int, j: int| 0 <= i < j < head.len() implies (#[trigger] head[i]).tick
                <= (#[trigger] head[j]).tick by {
                assert(pending[i].tick <= pending[j].tick);
            }
            assert forall|i: int, j: int| 0 <= i < j < r.kept.len() implies (
            #[trigger] r.kept[i]).tick <= (#[trigger] r.kept[j]).tick by {
                if j < before.kept.len() {
                    assert(before.kept[i].tick <= before.kept[j].tick);
                } else {
                    assert(head.contains(before.kept[i]));
                    let k = choose|k: int| 0 <= k < head.len() && head[k] == before.kept[i];
                    assert(pending[k].tick <= pending[pending.len() - 1].tick);
                }
            }
        }
    }
}

proof fn lemma_poll_keeps_queue(reg: RegistryModel, s: StateModel, tick: u32)
    ensures
        queue_kept(reg, script_eval::polled(reg, s, tick).reg),
{
    lemma_all_released(reg.pending, s, tick);
    let start = script_eval::poll_start(reg, s, tick);
    let n = reg.watches.len();
    lemma_first_pass(start, tick, n);
    lemma_second_pass(start.first_pass(tick, n), tick, n);
}

/// There is never more than one release for a variable or pseudo-class: where
/// all waiting releases have different targets, they have after a poll.
pub proof fn law_poll_keeps_one_release_per_target(reg: RegistryModel, s: StateModel, tick: u32)
    requires
        targets_distinct(reg.pending),
    ensures
        targets_distinct(script_eval::polled(reg, s, tick).reg.pending),
{
    lemma_poll_keeps_queue(reg, s, tick);
}

/// The releases that end first stand in front: where the waiting releases are
/// ordered by tick, they are after a poll.
pub proof fn law_poll_keeps_releases_ordered(reg: RegistryModel, s: StateModel, tick: u32)
    requires
        ticks_ordered(reg.pending),
    ensures
        ticks_ordered(script_eval::polled(reg, s, tick).reg.pending),
{
    lemma_poll_keeps_queue(reg, s, tick);
}

proof fn lemma_passes_keep_halt(p: PollModel, tick: u32, n: nat)
    requires
        p.reg.halt,
    ensures
        p.first_pass(tick, n).reg.halt,
        p.second_pass(tick, n).reg.halt,
    decreases n,
{
    if n > 0 {
        lemma_passes_keep_halt(p, tick, (n - 1) as nat);
    }
}

/// Once a watch asked the host to stop, no poll takes it back.
pub proof fn law_halt_stays(reg: RegistryModel, s: StateModel, tick: u32)
    requires
        reg.halt,
    ensures
        script_eval::polled(reg, s, tick).reg.halt,
{
    let start = script_eval::poll_start(reg, s, tick);
    let n = reg.watches.len();
    lemma_passes_keep_halt(start, tick, n);
    lemma_passes_keep_halt(start.first_pass(tick, n), tick, n);
}

proof fn lemma_queued_holds(list: Seq<ReleaseModel>, r: ReleaseModel, x: ReleaseModel)
    ensures
        script_eval::queued(list, r).contains(x) <==> list.contains(x) || x == r,
    decreases list.len(),
{
    if list.len() == 0 || list.last().tick <= r.tick {
        lemma_push_holds(list, r, x);
    } else {
        lemma_queued_holds(list.drop_last(), r, x);
        lemma_push_holds(script_eval::queued(list.drop_last(), r), list.last(), x);
        lemma_push_holds(list.drop_last(), list.last(), x);
        assert(list.drop_last().push(list.last()) =~= list);
    }
}

proof fn lemma_push_holds(list: Seq<ReleaseModel>, r: ReleaseModel, x: ReleaseModel)
    ensures
        list.push(r).contains(x) <==> list.contains(x) || x == r,
{
    let now = list.push(r);
    assert(now[list.len() as int] == r);
    if list.contains(x) {
        assert(now[list.index_of(x)] == x);
    }
    if now.contains(x) && x != r {
        assert(list[now.index_of(x)] == x);
    }
}

proof fn lemma_all_queued_holds(list: Seq<ReleaseModel>, new: Seq<ReleaseModel>, x: ReleaseModel)
    ensures
        script_eval::all_queued(list, new).contains(x) <==> list.contains(x) || new.contains(x),
    decreases new.len(),
{
    if new.len() > 0 {
        let head = new.drop_last();
        lemma_all_queued_holds(list, head, x);
        lemma_queued_holds(script_eval::all_queued(list, head), new.last(), x);
        lemma_push_holds(head, new.last(), x);
        assert(head.push(new.last()) =~= new);
    }
}

/// No pulse starts on a target that was released at the start of the poll.
proof fn lemma_nothing_released_again(e: EffectsModel, actions: Seq<ActionModel>, o: Occasion)
    requires
        forall|i: int|
            0 <= i < e.releases.len() ==> !o.released.contains((#[trigger] e.releases[i]).target),
    ensures
        forall|i: int|
            0 <= i < e.all_performed(actions, o).releases.len() ==> !o.released.contains(
                (#[trigger] e.all_performed(actions, o).releases[i]).target,
            ),
    decreases actions.len(),
{
    if actions.len() > 0 {
        let before = e.all_performed(actions.drop_last(), o);
        let after = e.all_performed(actions, o);
        lemma_nothing_released_again(e, actions.drop_last(), o);
        assert forall|i: int| 0 <= i < after.releases.len() implies !o.released.contains(
            (#[trigger] after.releases[i]).target,
        ) by {
            if i < before.releases.len() {
                assert(after.releases[i] == before.releases[i]);
            }
        }
    }
}

/// The releases that wait are those that waited at the start of the poll, and
/// new ones on targets that were not released.
spec fn queue_grown(start: RegistryModel, now: RegistryModel) -> bool {
    &&& now.released == start.released
    &&& forall|x: ReleaseModel| #[trigger]
        now.pending.contains(x) ==> start.pending.contains(x) || !start.released.contains(x.target)
    &&& forall|x: ReleaseModel| #[trigger] start.pending.contains(x) ==> now.pending.contains(x)
}

proof fn lemma_look_grows_queue(start: RegistryModel, p: PollModel, i: int, tick: u32)
    requires
        queue_grown(start, p.reg),
    ensures
        queue_grown(start, p.looked_at(i, tick).reg),
{
    let d = script_eval::decided(p.reg.watches[i].kind, p.state, tick);
    let reg = p.reg.remembering(i, d.kind);
    let w = reg.watches[i];
    let o = script_eval::occasion(reg, w.name, tick);
    let e = reg.effects(i, d.state, tick);
    let begin = EffectsModel {
        state: d.state,
        emits: false,
        halts: w.kind is Halt,
        dumps: Seq::empty(),
        releases: Seq::empty(),
        files: Seq::empty(),
    };
    lemma_nothing_released_again(begin, w.actions, o);
    let now = p.looked_at(i, tick).reg;
    if d.fires {
        assert forall|x: ReleaseModel| #[trigger] now.pending.contains(x) implies
            start.pending.contains(x) || !start.released.contains(x.target) by {
            lemma_all_queued_holds(reg.pending, e.releases, x);
            if e.releases.contains(x) {
                assert(e.releases[e.releases.index_of(x)] == x);
            }
        }
        assert forall|x: ReleaseModel| #[trigger] start.pending.contains(x) implies
            now.pending.contains(x) by {
            lemma_all_queued_holds(reg.pending, e.releases, x);
        }
    }
}

proof fn lemma_passes_grow_queue(start: RegistryModel, p: PollModel, tick: u32, n: nat)
    requires
        queue_grown(start, p.reg),
    ensures
        queue_grown(start, p.first_pass(tick, n).reg),
        queue_grown(start, p.second_pass(tick, n).reg),
    decreases n,
{
    if n > 0 {
        lemma_passes_grow_queue(start, p, tick, (n - 1) as nat);
        lemma_look_grows_queue(start, p.first_pass(tick, (n - 1) as nat), n - 1, tick);
        lemma_look_grows_queue(start, p.second_pass(tick, (n - 1) as nat), n - 1, tick);
    }
}

/// A poll ends exactly the pulses that were due before it: their targets are
/// released, and they wait no longer; the others wait on. No pulse starts on a
/// target that was just released, so where targets are different none of them
/// waits on such a target.
pub proof fn law_due_pulses_end(reg: RegistryModel, s: StateModel, tick: u32, i: int)
    requires
        0 <= i < reg.pending.len(),
    ensures
        ({
            let now = script_eval::polled(reg, s, tick).reg;
            let r = reg.pending[i];
            if r.tick <= tick {
                &&& now.released.contains(r.target)
                &&& !now.pending.contains(r)
                &&& targets_distinct(reg.pending) ==> !script_eval::waits(now.pending, r.target)
            } else {
                now.pending.contains(r)
            }
        }),
{
    lemma_all_released(reg.pending, s, tick);
    let start = script_eval::poll_start(reg, s, tick);
    let n = reg.watches.len();
    lemma_passes_grow_queue(start.reg, start, tick, n);
    lemma_passes_grow_queue(start.reg, start.first_pass(tick, n), tick, n);
    let now = script_eval::polled(reg, s, tick).reg;
    let r = reg.pending[i];
    if r.tick <= tick {
        assert(start.reg.released.contains(r.target));
        if now.pending.contains(r) {
            let k = start.reg.pending.index_of(r);
            assert(start.reg.pending[k].tick > tick);
        }
        if targets_distinct(reg.pending) && script_eval::waits(now.pending, r.target) {
            let j = choose|j: int|
                0 <= j < now.pending.len() && (#[trigger] now.pending[j]).target == r.target;
            let x = now.pending[j];
            assert(now.pending.contains(x));
            assert(start.reg.pending.contains(x));
            let k = start.reg.pending.index_of(x);
            assert(start.reg.pending[k].tick > tick);
            assert(reg.pending.contains(start.reg.pending[k]));
            let m = reg.pending.index_of(x);
            assert(reg.pending[m].target == reg.pending[i].target);
        }
    } else {
        assert(start.reg.pending.contains(r));
    }
}

/// The targets that a poll released are those of the pulses that were due.
pub proof fn law_only_due_pulses_end(reg: RegistryModel, s: StateModel, tick: u32, t: TargetModel)
    requires
        script_eval::polled(reg, s, tick).reg.released.contains(t),
    ensures
        exists|i: int|
            0 <= i < reg.pending.len() && (#[trigger] reg.pending[i]).tick <= tick
                && reg.pending[i].target == t,
{
    let start = script_eval::poll_start(reg, s, tick);
    let n = reg.watches.len();
    lemma_passes_grow_queue(start.reg, start, tick, n);
    lemma_passes_grow_queue(start.reg, start.first_pass(tick, n), tick, n);
    lemma_only_due(reg.pending, s, tick, t);
}

proof fn lemma_only_due(pending: Seq<ReleaseModel>, s: StateModel, tick: u32, t: TargetModel)
    requires
        script_eval::all_released(pending, s, tick).released.contains(t),
    ensures
        exists|i: int|
            0 <= i < pending.len() && (#[trigger] pending[i]).tick <= tick && pending[i].target
                == t,
    decreases pending.len(),
{
    let r = script_eval::all_released(pending, s, tick);
    if pending.len() > 0 {
        let head = pending.drop_last();
        let before = script_eval::all_released(head, s, tick);
        let k = r.released.index_of(t);
        if k < before.released.len() {
            assert(before.released[k] == t);
            lemma_only_due(head, s, tick, t);
            let i = choose|i: int|
                0 <= i < head.len() && (#[trigger] head[i]).tick <= tick && head[i].target == t;
            assert(pending[i].target == t);
        } else {
            assert(pending[pending.len() - 1].target == t);
        }
    }
}

/// A pulse on a variable sets it and schedules its end, unless one on the same
/// variable waits to end or ended at the start of this poll: then nothing
/// happens at all.
pub proof fn law_pulse_starts_or_is_skipped(
    e: EffectsModel,
    o: Occasion,
    name: Seq<char>,
    value: i32,
    hold: u32,
)
    requires
        o.tick + hold <= u32::MAX,
    ensures
        ({
            let target = TargetModel::Var(name);
            let next = e.performed(ActionModel::SetVarPulse { name, value, hold }, o);
            if script_eval::waits(o.pending, target) || script_eval::waits(e.releases, target)
                || o.released.contains(target) {
                next == e
            } else {
                next.state == e.state.with_var(name, value) && next.releases == e.releases.push(
                    ReleaseModel { tick: (o.tick + hold) as u32, target },
                )
            }
        }),
{
}

// ---------------------------------------------------------------------------
// Gates
// ---------------------------------------------------------------------------

/// Names and gates of the watches are those of `reg`, and every watch has its
/// mark.
pub open spec fn same_watches(p: PollModel, reg: RegistryModel) -> bool {
    &&& p.reg.watches.len() == reg.watches.len() == p.fired.len()
    &&& forall|k: int|
        0 <= k < reg.watches.len() ==> (#[trigger] p.reg.watches[k]).name == reg.watches[k].name
            && p.reg.watches[k].gate == reg.watches[k].gate
}

/// Lists with the same names find the same watch.
pub proof fn lemma_same_names(a: Seq<WatchModel>, b: Seq<WatchModel>, name: Seq<char>)
    requires
        a.len() == b.len(),
        forall|k: int| 0 <= k < a.len() ==> (#[trigger] a[k]).name == b[k].name,
    ensures
        script::first_named(a, name) == script::first_named(b, name),
        script::first_named(a, name) matches Some(k) ==> 0 <= k < a.len(),
    decreases a.len(),
{
    if a.len() > 0 {
        assert(a.last().name == b.last().name) by {
            assert(a[a.len() - 1].name == b[a.len() - 1].name);
        }
        assert forall|k: int| 0 <= k < a.drop_last().len() implies (
        #[trigger] a.drop_last()[k]).name == b.drop_last()[k].name by {
            assert(a[k].name == b[k].name);
        }
        lemma_same_names(a.drop_last(), b.drop_last(), name);
    }
}

proof fn lemma_first_pass_marks(p: PollModel, reg: RegistryModel, tick: u32, n: nat)
    requires
        same_watches(p, reg),
        n <= reg.watches.len(),
        forall|i: int| 0 <= i < p.fired.len() ==> !#[trigger] p.fired[i],
    ensures
        same_watches(p.first_pass(tick, n), reg),
        forall|i: int|
            0 <= i < reg.watches.len() && reg.watches[i].gate is Some ==> !#[trigger] p.first_pass(
                tick,
                n,
            ).fired[i],
    decreases n,
{
    if n > 0 {
        lemma_first_pass_marks(p, reg, tick, (n - 1) as nat);
        let before = p.first_pass(tick, (n - 1) as nat);
        script_eval::lemma_looked_at(before, n - 1, tick);
        assert(before.reg.watches[n - 1].gate == reg.watches[n - 1].gate);
        let next = p.first_pass(tick, n);
        assert forall|k: int| 0 <= k < reg.watches.len() implies (
        #[trigger] next.reg.watches[k]).name == reg.watches[k].name && next.reg.watches[k].gate
            == reg.watches[k].gate by {
            assert(before.reg.watches[k].name == reg.watches[k].name);
        }
        assert forall|i: int|
            0 <= i < reg.watches.len() && reg.watches[i].gate is Some implies
            !#[trigger] next.fired[i] by {
            assert(!before.fired[i]);
        }
    }
}

/// Did watch `i`'s gate fire, going by the watches of `reg`?
pub open spec fn gate_of_fired(p: PollModel, reg: RegistryModel, i: int) -> bool {
    reg.watches[i].gate matches Some(g) && (script::first_named(reg.watches, g) matches Some(k)
        && p.fired[k])
}

proof fn lemma_second_pass_marks(p: PollModel, reg: RegistryModel, tick: u32, n: nat)
    requires
        same_watches(p, reg),
        n <= reg.watches.len(),
        forall|i: int|
            0 <= i < reg.watches.len() && reg.watches[i].gate is Some ==> !#[trigger] p.fired[i],
    ensures
        same_watches(p.second_pass(tick, n), reg),
        forall|i: int|
            n <= i < reg.watches.len() && reg.watches[i].gate is Some
                ==> !#[trigger] p.second_pass(tick, n).fired[i],
        forall|i: int|
            0 <= i < reg.watches.len() && reg.watches[i].gate is Some && #[trigger] p.second_pass(
                tick,
                n,
            ).fired[i] ==> gate_of_fired(p.second_pass(tick, n), reg, i),
    decreases n,
{
    if n > 0 {
        lemma_second_pass_marks(p, reg, tick, (n - 1) as nat);
        let before = p.second_pass(tick, (n - 1) as nat);
        let next = p.second_pass(tick, n);
        let me = n - 1;
        script_eval::lemma_looked_at(before, me, tick);
        assert(before.reg.watches[me].gate == reg.watches[me].gate);
        assert forall|k: int| 0 <= k < reg.watches.len() implies (
        #[trigger] next.reg.watches[k]).name == reg.watches[k].name && next.reg.watches[k].gate
            == reg.watches[k].gate by {
            assert(before.reg.watches[k].name == reg.watches[k].name);
        }
        if before.gate_open(me) {
            let g = reg.watches[me].gate->0;
            lemma_same_names(before.reg.watches, reg.watches, g);
            let gate = script::first_named(reg.watches, g)->0;
            assert(before.fired[gate]);
            assert(!before.fired[me]);
            assert forall|i: int|
                0 <= i < reg.watches.len() && reg.watches[i].gate is Some
                    && #[trigger] next.fired[i] implies gate_of_fired(next, reg, i) by {
                if i == me {
                    assert(next.fired[gate]);
                } else {
                    assert(before.fired[i]);
                    assert(gate_of_fired(before, reg, i));
                    let k = script::first_named(reg.watches, reg.watches[i].gate->0)->0;
                    lemma_same_names(reg.watches, reg.watches, reg.watches[i].gate->0);
                    assert(before.fired[k]);
                    assert(k != me);
                    assert(next.fired[k]);
                }
            }
            assert forall|i: int|
                n <= i < reg.watches.len() && reg.watches[i].gate is Some implies
                !#[trigger] next.fired[i] by {
                assert(!before.fired[i]);
            }
        } else {
            assert forall|i: int|
                n <= i < reg.watches.len() && reg.watches[i].gate is Some implies
                !#[trigger] next.fired[i] by {
                assert(!before.fired[i]);
            }
        }
    }
}

/// A gated watch fires only in polls in which the watch that gates it fired.
pub proof fn law_gated_watch_needs_its_gate(reg: RegistryModel, s: StateModel, tick: u32, i: int)
    requires
        0 <= i < reg.watches.len(),
        reg.watches[i].gate is Some,
        script_eval::polled(reg, s, tick).fired[i],
    ensures
        script::first_named(reg.watches, reg.watches[i].gate->0) matches Some(k)
            && script_eval::polled(reg, s, tick).fired[k],
{
    let start = script_eval::poll_start(reg, s, tick);
    let n = reg.watches.len();
    lemma_first_pass_marks(start, reg, tick, n);
    let middle = start.first_pass(tick, n);
    lemma_second_pass_marks(middle, reg, tick, n);
    let end = middle.second_pass(tick, n);
    assert(end.fired[i]);
    assert(gate_of_fired(end, reg, i));
}

/// Is every fire count one more than in `reg` where the watch's mark is set, and
/// as it was elsewhere?
pub open spec fn counts_follow(p: PollModel, reg: RegistryModel) -> bool {
    &&& p.reg.fire_counts.len() == reg.fire_counts.len()
    &&& forall|i: int|
        0 <= i < reg.fire_counts.len() ==> (#[trigger] p.reg.fire_counts[i]) == if p.fired[i] {
            reg.fire_counts[i].wrapping_add(1)
        } else {
            reg.fire_counts[i]
        }
}

proof fn lemma_look_counts(p: PollModel, reg: RegistryModel, i: int, tick: u32)
    requires
        counts_follow(p, reg),
        p.fired.len() == reg.fire_counts.len(),
        0 <= i < p.fired.len(),
        !p.fired[i],
    ensures
        counts_follow(p.looked_at(i, tick), reg),
{
    let next = p.looked_at(i, tick);
    assert forall|k: int| 0 <= k < reg.fire_counts.len() implies (#[trigger] next.reg.fire_counts[k])
        == if next.fired[k] {
        reg.fire_counts[k].wrapping_add(1)
    } else {
        reg.fire_counts[k]
    } by {
        assert(p.reg.fire_counts[k] == if p.fired[k] {
            reg.fire_counts[k].wrapping_add(1)
        } else {
            reg.fire_counts[k]
        });
    }
}

proof fn lemma_first_pass_counts(p: PollModel, reg: RegistryModel, tick: u32, n: nat)
    requires
        same_watches(p, reg),
        n <= reg.watches.len(),
        forall|i: int| 0 <= i < p.fired.len() ==> !#[trigger] p.fired[i],
        reg.fire_counts.len() == reg.watches.len(),
        counts_follow(p, reg),
    ensures
        counts_follow(p.first_pass(tick, n), reg),
        forall|i: int|
            n <= i < reg.watches.len() ==> !#[trigger] p.first_pass(tick, n).fired[i],
    decreases n,
{
    if n > 0 {
        let before = p.first_pass(tick, (n - 1) as nat);
        lemma_first_pass_counts(p, reg, tick, (n - 1) as nat);
        lemma_first_pass_marks(p, reg, tick, (n - 1) as nat);
        assert(!before.fired[n - 1]);
        lemma_look_counts(before, reg, n - 1, tick);
        let next = p.first_pass(tick, n);
        assert forall|i: int| n <= i < reg.watches.len() implies !#[trigger] next.fired[i] by {
            assert(!before.fired[i]);
        }
    }
}

proof fn lemma_second_pass_counts(p: PollModel, reg: RegistryModel, tick: u32, n: nat)
    requires
        same_watches(p, reg),
        n <= reg.watches.len(),
        forall|i: int|
            0 <= i < reg.watches.len() && reg.watches[i].gate is Some ==> !#[trigger] p.fired[i],
        reg.fire_counts.len() == reg.watches.len(),
        counts_follow(p, reg),
    ensures
        counts_follow(p.second_pass(tick, n), reg),
    decreases n,
{
    if n > 0 {
        let before = p.second_pass(tick, (n - 1) as nat);
        lemma_second_pass_counts(p, reg, tick, (n - 1) as nat);
        lemma_second_pass_marks(p, reg, tick, (n - 1) as nat);
        if before.gate_open(n - 1) {
            assert(before.reg.watches[n - 1].gate == reg.watches[n - 1].gate);
            assert(!before.fired[n - 1]);
            lemma_look_counts(before, reg, n - 1, tick);
        }
    }
}

/// A watch fires at most once in a poll: its fire count grows by one where its
/// mark is set, and stays where it is not.
pub proof fn law_fire_counts_follow_marks(reg: RegistryModel, s: StateModel, tick: u32, i: int)
    requires
        reg.fire_counts.len() == reg.watches.len(),
        0 <= i < reg.watches.len(),
    ensures
        ({
            let now = script_eval::polled(reg, s, tick);
            &&& now.reg.gate_fired == now.fired
            &&& now.reg.fire_counts.len() == reg.fire_counts.len() == now.fired.len()
            &&& now.reg.fire_counts[i] == if now.fired[i] {
                reg.fire_counts[i].wrapping_add(1)
            } else {
                reg.fire_counts[i]
            }
        }),
{
    let start = script_eval::poll_start(reg, s, tick);
    let n = reg.watches.len();
    lemma_first_pass_marks(start, reg, tick, n);
    lemma_first_pass_counts(start, reg, tick, n);
    let middle = start.first_pass(tick, n);
    lemma_second_pass_marks(middle, reg, tick, n);
    lemma_second_pass_counts(middle, reg, tick, n);
}

/// The fire count of a gated watch moves only in polls in which that of the watch
/// that gates it moves; where there is no such watch, it never does.
pub proof fn law_gated_count_needs_its_gate(reg: RegistryModel, s: StateModel, tick: u32, i: int)
    requires
        reg.fire_counts.len() == reg.watches.len(),
        0 <= i < reg.watches.len(),
        reg.watches[i].gate is Some,
        script_eval::polled(reg, s, tick).reg.fire_counts[i] != reg.fire_counts[i],
    ensures
        script::first_named(reg.watches, reg.watches[i].gate->0) matches Some(k) && (0 <= k
            < reg.watches.len() && script_eval::polled(reg, s, tick).reg.fire_counts[k]
            == reg.fire_counts[k].wrapping_add(1)),
{
    law_fire_counts_follow_marks(reg, s, tick, i);
    law_gated_watch_needs_its_gate(reg, s, tick, i);
    lemma_same_names(reg.watches, reg.watches, reg.watches[i].gate->0);
    law_fire_counts_follow_marks(
        reg,
        s,
        tick,
        script::first_named(reg.watches, reg.watches[i].gate->0)->0,
    );
}

// ---------------------------------------------------------------------------
// Watches written as text
// ---------------------------------------------------------------------------

/// A pulse that a watch was written with ends: it holds for at least one tick.
pub open spec fn pulse_ends(a: ActionModel) -> bool {
    match a {
        ActionModel::SetVarPulse { hold, .. } => hold > 0,
        ActionModel::PseudoPulse { hold, .. } => hold > 0,
        _ => true,
    }
}

/// All pulses of a list of actions end.
pub open spec fn pulses_end(list: Seq<ActionModel>) -> bool {
    forall|i: int| 0 <= i < list.len() ==> pulse_ends(#[trigger] list[i])
}

proof fn lemma_actions_end(toks: Seq<Seq<char>>)
    ensures
        script_spec::actions_of(toks) matches Ok(list) ==> pulses_end(list),
    decreases toks.len(),
{
    if toks.len() > 0 {
        lemma_actions_end(toks.drop_last());
    }
}

proof fn lemma_suffix_actions_end(list: Seq<Seq<char>>)
    ensures
        script_spec::suffix_of(list) matches Ok(m) ==> pulses_end(m.actions),
    decreases list.len(),
{
    if list.len() > 0 {
        lemma_suffix_actions_end(list.drop_last());
        if let Some(a) = fields::after_prefix(list.last(), "then="@) {
            lemma_actions_end(fields::nonempty(fields::fields(a, '+')));
        }
    }
}

/// Every pulse of a watch that was read from a text ends.
pub proof fn law_written_pulses_end(s: Seq<char>)
    ensures
        script_spec::watch_of(s) matches Ok(w) ==> pulses_end(w.actions),
{
    let parts = fields::fields(s, ':');
    let k = script_spec::suffix_start(parts, 2);
    lemma_suffix_actions_end(script_spec::suffixes(parts.subrange(k, parts.len() as int)));
}

/// A watch that was read from a text has a name, has not fired yet, and, if it is a
/// condition, has a test.
pub proof fn law_written_watch_is_fresh(s: Seq<char>)
    ensures
        script_spec::watch_of(s) matches Ok(w) ==> w.name.len() > 0 && match w.kind {
            KindModel::Stride { last, .. } => last == 0,
            KindModel::Edge { last, primed, .. } => last == 0 && !primed,
            KindModel::Cond { tests, fired, held, .. } => tests.len() > 0 && !fired && !held,
            _ => true,
        },
{
}

proof fn lemma_joined_starts(parts: Seq<Seq<char>>, sep: char)
    requires
        parts.len() > 0,
    ensures
        text::starts_with(fields::joined(parts, sep), parts[0]),
    decreases parts.len(),
{
    if parts.len() > 1 {
        lemma_joined_starts(parts.drop_last(), sep);
        let before = fields::joined(parts.drop_last(), sep);
        let now = fields::joined(parts, sep);
        assert(now.subrange(0, parts[0].len() as int) =~= before.subrange(
            0,
            parts[0].len() as int,
        ));
    } else {
        assert(parts[0].subrange(0, parts[0].len() as int) =~= parts[0]);
    }
}

proof fn lemma_one_suffix(parts: Seq<Seq<char>>)
    requires
        parts.len() > 0,
        text::starts_with(parts[0], "then="@),
        forall|i: int| 1 <= i < parts.len() ==> !script_spec::starts_suffix(#[trigger] parts[i]),
    ensures
        script_spec::suffixes(parts) == seq![fields::joined(parts, ':')],
    decreases parts.len(),
{
    let before = parts.drop_last();
    if parts.len() > 1 {
        assert forall|i: int| 1 <= i < before.len() implies !script_spec::starts_suffix(
            #[trigger] before[i],
        ) by {
            assert(before[i] == parts[i]);
        }
        lemma_one_suffix(before);
        lemma_joined_starts(before, ':');
        let text = fields::joined(before, ':');
        assert(text.subrange(0, "then="@.len() as int) =~= parts[0].subrange(
            0,
            "then="@.len() as int,
        )) by {
            assert(text.subrange(0, parts[0].len() as int) == parts[0]);
            assert forall|i: int| 0 <= i < "then="@.len() implies text[i] == parts[0][i] by {
                assert(text.subrange(0, parts[0].len() as int)[i] == parts[0][i]);
            }
        }
        assert(text::starts_with(text, "then="@));
        assert(script_spec::suffixes(parts) =~= seq![fields::joined(parts, ':')]);
    } else {
        assert(before =~= Seq::<Seq<char>>::empty());
        assert(script_spec::suffixes(before) == Seq::<Seq<char>>::empty());
        assert(script_spec::suffixes(parts) =~= seq![fields::joined(parts, ':')]);
    }
}

/// The actions of a watch may hold `:`: an action list is everything up to the next
/// field that starts a gate, a sample list or an action list.
pub proof fn law_actions_may_hold_colons(s: Seq<char>)
    requires
        text::starts_with(s, "then="@),
        forall|i: int|
            1 <= i < fields::fields(s, ':').len() ==> !script_spec::starts_suffix(
                #[trigger] fields::fields(s, ':')[i],
            ),
    ensures
        script_spec::suffixes(fields::fields(s, ':')) == seq![s],
{
    reveal_strlit("then=");
    let parts = fields::fields(s, ':');
    fields::lemma_fields_nonempty(s, ':');
    fields::law_join_undoes_split(s, ':');
    lemma_first_field(s, "then="@, ':');
    lemma_one_suffix(parts);
}

/// A text that starts without a separator starts with its first field.
proof fn lemma_first_field(s: Seq<char>, prefix: Seq<char>, sep: char)
    requires
        text::starts_with(s, prefix),
        forall|i: int| 0 <= i < prefix.len() ==> #[trigger] prefix[i] != sep,
    ensures
        fields::fields(s, sep).len() > 0,
        text::starts_with(fields::fields(s, sep)[0], prefix),
    decreases s.len(),
{
    fields::lemma_fields_nonempty(s, sep);
    if s.len() > prefix.len() {
        assert(s.drop_last().subrange(0, prefix.len() as int) =~= s.subrange(
            0,
            prefix.len() as int,
        ));
        lemma_first_field(s.drop_last(), prefix, sep);
        let before = fields::fields(s.drop_last(), sep);
        if s.last() != sep && before.len() == 1 {
            let now = before[0].push(s.last());
            assert(now.subrange(0, prefix.len() as int) =~= before[0].subrange(
                0,
                prefix.len() as int,
            ));
        }
    } else {
        assert(s.subrange(0, prefix.len() as int) =~= s);
        lemma_no_separator(s, sep);
    }
}

proof fn lemma_no_separator(s: Seq<char>, sep: char)
    requires
        forall|i: int| 0 <= i < s.len() ==> #[trigger] s[i] != sep,
    ensures
        fields::fields(s, sep) == seq![s],
    decreases s.len(),
{
    if s.len() > 0 {
        lemma_no_separator(s.drop_last(), sep);
        assert(s.drop_last().push(s.last()) =~= s);
        assert(fields::fields(s, sep) =~= seq![s]);
    } else {
        assert(s =~= Seq::<char>::empty());
        assert(fields::fields(s, sep) =~= seq![s]);
    }
}

} // verus!

//! When watches fire in a poll, in terms of the memory that is polled.

use crate::script;
use crate::script::{
    ActionModel, DumpSink, KindModel, PredicateModel, RegistryModel, WatchModel,
};
use crate::script_eval;
use crate::script_eval::{EffectsModel, Occasion, PollModel};
use crate::script_laws;
use crate::state;
use crate::state::StateModel;
use vstd::prelude::*;

verus! {

// ---------------------------------------------------------------------------
// Polls that write nothing
// ---------------------------------------------------------------------------

/// Does an action leave variables and gates alone?
pub open spec fn only_reports(a: ActionModel) -> bool {
    a is Emit || a is Dump || a is Snapshot || a is Halt
}

/// Does a watch leave variables and gates alone?
pub open spec fn watch_only_reports(w: WatchModel) -> bool {
    forall|j: int| 0 <= j < w.actions.len() ==> only_reports(#[trigger] w.actions[j])
}

/// A registry whose watches only report, with no pulse waiting to end: every watch
/// of a poll sees the memory that the poll began with.
pub open spec fn quiet(reg: RegistryModel) -> bool {
    &&& reg.pending.len() == 0
    &&& forall|i: int| 0 <= i < reg.watches.len() ==> watch_only_reports(#[trigger] reg.watches[i])
}

proof fn lemma_slot_logs(
    s: StateModel,
    base: i32,
    stride: u32,
    needle: Seq<u8>,
    slot: int,
    j: int,
)
    ensures
        script_eval::same_but_log(
            s,
            script_eval::after_slot(s, base, stride, needle, slot, j),
        ),
    decreases needle.len() - j,
{
    if j < needle.len() {
        let addr = script_eval::place(base, (slot + j) * stride);
        lemma_slot_logs(s.after_read(addr), base, stride, needle, slot, j + 1);
    }
}

proof fn lemma_search_logs(
    s: StateModel,
    base: i32,
    stride: u32,
    needle: Seq<u8>,
    slots: int,
    slot: int,
)
    ensures
        script_eval::same_but_log(
            s,
            script_eval::after_search(s, base, stride, needle, slots, slot),
        ),
    decreases slots - slot,
{
    if !(slot + needle.len() > slots || slot >= slots) {
        lemma_slot_logs(s, base, stride, needle, slot, 0);
        let next = script_eval::after_slot(s, base, stride, needle, slot, 0);
        lemma_search_logs(next, base, stride, needle, slots, slot + 1);
    }
}

proof fn lemma_tests_log(tests: Seq<PredicateModel>, s: StateModel, i: int)
    ensures
        script_eval::same_but_log(s, script_eval::after_tests(tests, s, i)),
    decreases tests.len() - i,
{
    if 0 <= i < tests.len() || i < 0 {
        let next = script_eval::after_test(tests[i], s);
        if let PredicateModel::Pattern { base, stride, window, needle } = tests[i] {
            lemma_search_logs(
                s,
                base,
                stride,
                needle,
                script_eval::slots_in(window, stride),
                0,
            );
        }
        assert(script_eval::same_but_log(s, next));
        lemma_tests_log(tests, next, i + 1);
    }
}

/// Looking at a condition leaves everything but the log of reads, and comes to the
/// same in states that differ in nothing else.
proof fn lemma_decided(kind: KindModel, a: StateModel, b: StateModel, tick: u32)
    requires
        script_eval::same_but_log(a, b),
    ensures
        script_eval::same_but_log(b, script_eval::decided(kind, b, tick).state),
        script_eval::decided(kind, b, tick).fires == script_eval::decided(kind, a, tick).fires,
        script_eval::decided(kind, b, tick).kind == script_eval::decided(kind, a, tick).kind,
{
    script_eval::lemma_same_reads(a, b);
    if let KindModel::Cond { tests, repeat, fired, held } = kind {
        lemma_tests_log(tests, b, 0);
        assert forall|i: int| 0 <= i < tests.len() implies script_eval::holds(
            #[trigger] tests[i],
            a,
        ) == script_eval::holds(tests[i], b) by {
            script_eval::lemma_same_holds(a, b, tests[i]);
        }
        if script_eval::all_hold(tests, a) {
            assert forall|i: int| 0 <= i < tests.len() implies script_eval::holds(
                #[trigger] tests[i],
                b,
            ) by {
                assert(script_eval::holds(tests[i], a));
            }
        }
        if script_eval::all_hold(tests, b) {
            assert forall|i: int| 0 <= i < tests.len() implies script_eval::holds(
                #[trigger] tests[i],
                a,
            ) by {
                assert(script_eval::holds(tests[i], b));
            }
        }
    }
}

proof fn lemma_range_logs(s: StateModel, addr: i32, i: int, len: int)
    ensures
        script_eval::same_but_log(s, script_eval::after_range(s, addr, i, len)),
    decreases len - i,
{
    if i < len {
        lemma_range_logs(s.after_read(script_eval::place(addr, i)), addr, i + 1, len);
    }
}

proof fn lemma_reports_log(e: EffectsModel, actions: Seq<ActionModel>, o: Occasion)
    requires
        forall|j: int| 0 <= j < actions.len() ==> only_reports(#[trigger] actions[j]),
    ensures
        script_eval::same_but_log(e.state, e.all_performed(actions, o).state),
    decreases actions.len(),
{
    if actions.len() > 0 {
        assert forall|j: int| 0 <= j < actions.drop_last().len() implies only_reports(
            #[trigger] actions.drop_last()[j],
        ) by {
            assert(only_reports(actions[j]));
        }
        lemma_reports_log(e, actions.drop_last(), o);
        assert(only_reports(actions[actions.len() - 1]));
        if let ActionModel::Dump { addr, len, path } = actions.last() {
            lemma_range_logs(
                e.all_performed(actions.drop_last(), o).state,
                addr,
                0,
                len as int,
            );
        }
    }
}

/// What looking at one watch of a quiet registry comes to.
proof fn lemma_quiet_look(p: PollModel, s: StateModel, i: int, tick: u32)
    requires
        0 <= i < p.reg.watches.len() == p.fired.len(),
        watch_only_reports(p.reg.watches[i]),
        script_eval::same_but_log(s, p.state),
    ensures
        ({
            let q = p.looked_at(i, tick);
            let d = script_eval::decided(p.reg.watches[i].kind, s, tick);
            &&& script_eval::same_but_log(s, q.state)
            &&& q.fired == p.fired.update(i, d.fires)
            &&& q.reg.watches == p.reg.watches.update(
                i,
                WatchModel { kind: d.kind, ..p.reg.watches[i] },
            )
        }),
{
    let kind = p.reg.watches[i].kind;
    lemma_decided(kind, s, p.state, tick);
    let d = script_eval::decided(kind, p.state, tick);
    let reg = p.reg.remembering(i, d.kind);
    let w = reg.watches[i];
    assert(w.actions == p.reg.watches[i].actions);
    let start = EffectsModel {
        state: d.state,
        emits: false,
        halts: w.kind is Halt,
        dumps: Seq::empty(),
        releases: Seq::empty(),
        files: Seq::empty(),
    };
    lemma_reports_log(start, w.actions, script_eval::occasion(reg, w.name, tick));
}

/// The watch after it was looked at in state `s`.
pub open spec fn seen(w: WatchModel, s: StateModel, tick: u32) -> WatchModel {
    WatchModel { kind: script_eval::decided(w.kind, s, tick).kind, ..w }
}

/// Does a poll have looked at the watches without gate among the first `n`, each in
/// state `s`?
spec fn first_seen(p: PollModel, reg: RegistryModel, s: StateModel, tick: u32, n: int) -> bool {
    &&& script_eval::same_but_log(s, p.state)
    &&& p.reg.watches.len() == reg.watches.len() == p.fired.len()
    &&& forall|i: int|
        0 <= i < reg.watches.len() ==> (#[trigger] p.reg.watches[i]) == if i < n
            && reg.watches[i].gate is None {
            seen(reg.watches[i], s, tick)
        } else {
            reg.watches[i]
        }
    &&& forall|i: int|
        0 <= i < reg.watches.len() ==> (#[trigger] p.fired[i]) == (i < n && reg.watches[i].gate
            is None && script_eval::decided(reg.watches[i].kind, s, tick).fires)
}

#[verifier::spinoff_prover]
proof fn lemma_first_seen(p: PollModel, reg: RegistryModel, s: StateModel, tick: u32, n: nat)
    requires
        quiet(reg),
        n <= reg.watches.len(),
        first_seen(p, reg, s, tick, 0),
    ensures
        first_seen(p.first_pass(tick, n), reg, s, tick, n as int),
    decreases n,
{
    if n > 0 {
        lemma_first_seen(p, reg, s, tick, (n - 1) as nat);
        let before = p.first_pass(tick, (n - 1) as nat);
        assert(before.reg.watches[n - 1] == reg.watches[n - 1]);
        if reg.watches[n - 1].gate is None {
            assert(watch_only_reports(reg.watches[n - 1]));
            lemma_quiet_look(before, s, n - 1, tick);
        }
        let q = p.first_pass(tick, n);
        assert forall|i: int| 0 <= i < reg.watches.len() implies (#[trigger] q.reg.watches[i])
            == if i < n && reg.watches[i].gate is None {
            seen(reg.watches[i], s, tick)
        } else {
            reg.watches[i]
        } by {
            assert(before.reg.watches[i] == if i < n - 1 && reg.watches[i].gate is None {
                seen(reg.watches[i], s, tick)
            } else {
                reg.watches[i]
            });
        }
        assert forall|i: int| 0 <= i < reg.watches.len() implies (#[trigger] q.fired[i]) == (i < n
            && reg.watches[i].gate is None && script_eval::decided(
            reg.watches[i].kind,
            s,
            tick,
        ).fires) by {
            assert(before.fired[i] == (i < n - 1 && reg.watches[i].gate is None
                && script_eval::decided(reg.watches[i].kind, s, tick).fires));
        }
    }
}

/// Where a watch's own gate stands, if it is registered and has no gate itself.
pub open spec fn plain_gate(reg: RegistryModel, i: int) -> Option<int> {
    match reg.watches[i].gate {
        Some(g) => match script::first_named(reg.watches, g) {
            Some(k) => if reg.watches[k].gate is None {
                Some(k)
            } else {
                None
            },
            None => None,
        },
        None => None,
    }
}

/// Are names, gates and actions of the watches those of `reg`?
spec fn kept(p: PollModel, reg: RegistryModel) -> bool {
    forall|i: int|
        0 <= i < reg.watches.len() ==> (#[trigger] p.reg.watches[i]).name == reg.watches[i].name
            && p.reg.watches[i].gate == reg.watches[i].gate && p.reg.watches[i].actions
            == reg.watches[i].actions
}

spec fn same_watch(a: WatchModel, b: WatchModel) -> bool {
    a == b
}

/// Are the watches that come later or have no gate as they were?
spec fn untouched(p: PollModel, middle: PollModel, reg: RegistryModel, n: int) -> bool {
    forall|i: int|
        0 <= i < reg.watches.len() && (i >= n || reg.watches[i].gate is None) ==> (
        #[trigger] p.fired[i]) == middle.fired[i] && same_watch(
            p.reg.watches[i],
            middle.reg.watches[i],
        )
}

/// Did the gated watches among the first `n` fire exactly if their gate did and
/// their condition says so in state `s`?
spec fn gates_obeyed(
    p: PollModel,
    middle: PollModel,
    reg: RegistryModel,
    s: StateModel,
    tick: u32,
    n: int,
) -> bool {
    forall|i: int|
        0 <= i < n && plain_gate(reg, i) is Some ==> (#[trigger] p.fired[i]) == (
        middle.fired[plain_gate(reg, i)->0] && script_eval::decided(
            reg.watches[i].kind,
            s,
            tick,
        ).fires)
}

/// Does a poll have looked at the gated watches among the first `n` too, each in
/// state `s`?
spec fn second_seen(
    p: PollModel,
    middle: PollModel,
    reg: RegistryModel,
    s: StateModel,
    tick: u32,
    n: int,
) -> bool {
    &&& script_eval::same_but_log(s, p.state)
    &&& p.reg.watches.len() == reg.watches.len()
    &&& p.fired.len() == reg.watches.len()
    &&& kept(p, reg)
    &&& untouched(p, middle, reg, n)
    &&& gates_obeyed(p, middle, reg, s, tick, n)
}

proof fn lemma_untouched(
    before: PollModel,
    after: PollModel,
    middle: PollModel,
    reg: RegistryModel,
    me: int,
)
    requires
        0 <= me < reg.watches.len(),
        before.fired.len() == reg.watches.len() == before.reg.watches.len(),
        after == before || (reg.watches[me].gate is Some && after.fired == before.fired.update(
            me,
            after.fired[me],
        ) && after.reg.watches == before.reg.watches.update(me, after.reg.watches[me])),
        untouched(before, middle, reg, me),
    ensures
        untouched(after, middle, reg, me + 1),
{
    assert forall|i: int|
        0 <= i < reg.watches.len() && (i >= me + 1 || reg.watches[i].gate is None) implies (
    #[trigger] after.fired[i]) == middle.fired[i] && same_watch(
        after.reg.watches[i],
        middle.reg.watches[i],
    ) by {
        assert(before.fired[i] == middle.fired[i]);
        assert(i != me || after == before);
    }
}

#[verifier::spinoff_prover]
proof fn lemma_second_seen(
    middle: PollModel,
    reg: RegistryModel,
    s: StateModel,
    tick: u32,
    n: nat,
)
    requires
        quiet(reg),
        n <= reg.watches.len(),
        first_seen(middle, reg, s, tick, reg.watches.len() as int),
    ensures
        second_seen(middle.second_pass(tick, n), middle, reg, s, tick, n as int),
    decreases n,
{
    if n > 0 {
        lemma_second_seen(middle, reg, s, tick, (n - 1) as nat);
        let before = middle.second_pass(tick, (n - 1) as nat);
        let q = middle.second_pass(tick, n);
        let me = n - 1;
        assert(untouched(before, middle, reg, me));
        assert(before.fired[me] == middle.fired[me]);
        assert(same_watch(before.reg.watches[me], middle.reg.watches[me]));
        assert(before.reg.watches[me].gate == reg.watches[me].gate);
        if reg.watches[me].gate is Some {
            let g = reg.watches[me].gate->0;
            script_laws::lemma_same_names(before.reg.watches, reg.watches, g);
            assert(middle.reg.watches[me] == reg.watches[me]);
            assert(!middle.fired[me]);
            if let Some(k) = plain_gate(reg, me) {
                assert(before.fired[k] == middle.fired[k]);
                assert(before.gate_open(me) == middle.fired[k]);
            }
        }
        if before.gate_open(me) {
            assert(watch_only_reports(reg.watches[me]));
            lemma_quiet_look(before, s, me, tick);
        }
        assert forall|i: int| 0 <= i < reg.watches.len() implies (
        #[trigger] q.reg.watches[i]).name == reg.watches[i].name && q.reg.watches[i].gate
            == reg.watches[i].gate && q.reg.watches[i].actions == reg.watches[i].actions by {
            assert(before.reg.watches[i].name == reg.watches[i].name);
        }
        assert(kept(q, reg));
        lemma_untouched(before, q, middle, reg, me);
        assert forall|i: int| 0 <= i < n && plain_gate(reg, i) is Some implies (
        #[trigger] q.fired[i]) == (middle.fired[plain_gate(reg, i)->0] && script_eval::decided(
            reg.watches[i].kind,
            s,
            tick,
        ).fires) by {
            if i < me {
                assert(before.fired[i] == (middle.fired[plain_gate(reg, i)->0]
                    && script_eval::decided(reg.watches[i].kind, s, tick).fires));
            }
        }
        assert(gates_obeyed(q, middle, reg, s, tick, n as int));
    } else {
        assert forall|i: int| 0 <= i < reg.watches.len() implies (
        #[trigger] middle.reg.watches[i]).name == reg.watches[i].name
            && middle.reg.watches[i].gate == reg.watches[i].gate && middle.reg.watches[i].actions
            == reg.watches[i].actions by {
            assert(middle.reg.watches[i] == reg.watches[i] || middle.reg.watches[i] == seen(
                reg.watches[i],
                s,
                tick,
            ));
        }
        assert(kept(middle, reg));
    }
}

/// In a poll of a quiet registry every watch without gate is looked at in the
/// memory that the poll began with.
proof fn lemma_quiet_poll(reg: RegistryModel, s: StateModel, tick: u32, i: int)
    requires
        quiet(reg),
        0 <= i < reg.watches.len(),
    ensures
        reg.watches[i].gate is None ==> script_eval::polled(reg, s, tick).fired[i]
            == script_eval::decided(reg.watches[i].kind, s, tick).fires,
        reg.watches[i].gate is None ==> script_eval::polled(reg, s, tick).reg.watches[i] == seen(
            reg.watches[i],
            s,
            tick,
        ),
        plain_gate(reg, i) matches Some(k) ==> script_eval::polled(reg, s, tick).fired[i] == (
        script_eval::polled(reg, s, tick).fired[k] && script_eval::decided(
            reg.watches[i].kind,
            s,
            tick,
        ).fires),
        script_eval::same_but_log(s, script_eval::polled(reg, s, tick).state),
{
    let start = script_eval::poll_start(reg, s, tick);
    let n = reg.watches.len();
    lemma_first_seen(start, reg, s, tick, n);
    let middle = start.first_pass(tick, n);
    lemma_second_seen(middle, reg, s, tick, n);
    let end = middle.second_pass(tick, n);
    if reg.watches[i].gate is None {
        assert(end.fired[i] == middle.fired[i]);
        assert(middle.reg.watches[i] == seen(reg.watches[i], s, tick));
    }
    if let Some(k) = plain_gate(reg, i) {
        script_laws::lemma_same_names(reg.watches, reg.watches, reg.watches[i].gate->0);
        assert(end.fired[k] == middle.fired[k]);
    }
}

// ---------------------------------------------------------------------------
// Tests
// ---------------------------------------------------------------------------

/// A condition that has not fired yet, or that repeats, on the given tests.
pub open spec fn waiting(w: WatchModel, tests: Seq<PredicateModel>) -> bool {
    w.gate is None && (w.kind matches KindModel::Cond { tests: t, repeat, fired, .. } && t == tests
        && (repeat || !fired))
}

proof fn lemma_low_byte(v: i32)
    ensures
        state::low_byte(v) as int == v as int % 256,
{
    assert(v & 0xFF == v % 0x100 && 0 <= (v & 0xFF) < 0x100) by (bit_vector);
}

/// A poll of a condition on the one test `ADDR=VAL` makes it fire exactly if the low
/// byte at the address is the value; on the one test `ADDR!=VAL`, exactly if it is
/// not.
pub proof fn law_byte_tests_in_a_poll(
    reg: RegistryModel,
    s: StateModel,
    tick: u32,
    i: int,
    addr: i32,
    val: u8,
)
    requires
        quiet(reg),
        0 <= i < reg.watches.len(),
    ensures
        waiting(reg.watches[i], seq![PredicateModel::ByteEq { addr, val }]) ==> (
        script_eval::polled(reg, s, tick).fired[i] <==> s.read(addr) as int % 256 == val),
        waiting(reg.watches[i], seq![PredicateModel::ByteNe { addr, val }]) ==> (
        script_eval::polled(reg, s, tick).fired[i] <==> s.read(addr) as int % 256 != val),
{
    lemma_quiet_poll(reg, s, tick, i);
    lemma_low_byte(s.read(addr));
    let yes = seq![PredicateModel::ByteEq { addr, val }];
    let no = seq![PredicateModel::ByteNe { addr, val }];
    assert(yes[0] == (PredicateModel::ByteEq { addr, val }));
    assert(no[0] == (PredicateModel::ByteNe { addr, val }));
    assert(script_eval::all_hold(yes, s) == script_eval::holds(yes[0], s));
    assert(script_eval::all_hold(no, s) == script_eval::holds(no[0], s));
}

/// Of two conditions on the two byte tests with the same address and value, every
/// poll makes exactly one fire.
pub proof fn law_byte_tests_are_opposites(
    reg: RegistryModel,
    s: StateModel,
    tick: u32,
    i: int,
    k: int,
    addr: i32,
    val: u8,
)
    requires
        quiet(reg),
        0 <= i < reg.watches.len(),
        0 <= k < reg.watches.len(),
        waiting(reg.watches[i], seq![PredicateModel::ByteEq { addr, val }]),
        waiting(reg.watches[k], seq![PredicateModel::ByteNe { addr, val }]),
    ensures
        script_eval::polled(reg, s, tick).fired[i] != script_eval::polled(reg, s, tick).fired[k],
{
    law_byte_tests_in_a_poll(reg, s, tick, i, addr, val);
    law_byte_tests_in_a_poll(reg, s, tick, k, addr, val);
}

/// A condition that holds both byte tests with the same address and value never
/// fires.
pub proof fn law_opposite_tests_never_fire(
    reg: RegistryModel,
    s: StateModel,
    tick: u32,
    i: int,
    tests: Seq<PredicateModel>,
    addr: i32,
    val: u8,
)
    requires
        quiet(reg),
        0 <= i < reg.watches.len(),
        waiting(reg.watches[i], tests),
        tests.contains(PredicateModel::ByteEq { addr, val }),
        tests.contains(PredicateModel::ByteNe { addr, val }),
    ensures
        !script_eval::polled(reg, s, tick).fired[i],
{
    lemma_quiet_poll(reg, s, tick, i);
    let a = tests.index_of(PredicateModel::ByteEq { addr, val });
    let b = tests.index_of(PredicateModel::ByteNe { addr, val });
    assert(script_eval::holds(tests[a], s) ==> !script_eval::holds(tests[b], s));
}

/// The registry with watch `i` turned into a repeating condition on one test.
pub open spec fn with_one_test(reg: RegistryModel, i: int, test: PredicateModel) -> RegistryModel {
    RegistryModel {
        watches: reg.watches.update(
            i,
            WatchModel {
                kind: KindModel::Cond {
                    tests: seq![test],
                    repeat: true,
                    fired: false,
                    held: false,
                },
                ..reg.watches[i]
            },
        ),
        ..reg
    }
}

/// A condition fires exactly if it would fire on each of its tests alone.
pub proof fn law_condition_is_all_its_tests(
    reg: RegistryModel,
    s: StateModel,
    tick: u32,
    i: int,
    tests: Seq<PredicateModel>,
)
    requires
        quiet(reg),
        0 <= i < reg.watches.len(),
        waiting(reg.watches[i], tests),
    ensures
        script_eval::polled(reg, s, tick).fired[i] <==> forall|j: int|
            0 <= j < tests.len() ==> (#[trigger] script_eval::polled(
                with_one_test(reg, i, tests[j]),
                s,
                tick,
            )).fired[i],
{
    lemma_quiet_poll(reg, s, tick, i);
    assert forall|j: int| 0 <= j < tests.len() implies (#[trigger] script_eval::polled(
        with_one_test(reg, i, tests[j]),
        s,
        tick,
    )).fired[i] == script_eval::holds(tests[j], s) by {
        let one = with_one_test(reg, i, tests[j]);
        assert forall|k: int| 0 <= k < one.watches.len() implies watch_only_reports(
            #[trigger] one.watches[k],
        ) by {
            assert(watch_only_reports(reg.watches[k]));
        }
        lemma_quiet_poll(one, s, tick, i);
        assert(seq![tests[j]][0] == tests[j]);
        assert(script_eval::all_hold(seq![tests[j]], s) == script_eval::holds(
            seq![tests[j]][0],
            s,
        ));
    }
    if script_eval::polled(reg, s, tick).fired[i] {
        assert forall|j: int| 0 <= j < tests.len() implies (#[trigger] script_eval::polled(
            with_one_test(reg, i, tests[j]),
            s,
            tick,
        )).fired[i] by {
            assert(script_eval::holds(tests[j], s));
        }
    } else {
        let j = choose|j: int| 0 <= j < tests.len() && !script_eval::holds(#[trigger] tests[j], s);
        assert(!script_eval::polled(with_one_test(reg, i, tests[j]), s, tick).fired[i]);
    }
}

/// A poll of a condition on the one test `pattern@BASE:STRIDE:WINDOW=NEEDLE` makes it
/// fire exactly if the needle is empty, or its bytes stand behind each other at
/// places `STRIDE` apart, counted from the base on and all of them before the end of
/// the window.
pub proof fn law_pattern_in_a_poll(
    reg: RegistryModel,
    s: StateModel,
    tick: u32,
    i: int,
    base: i32,
    stride: u32,
    window: u32,
    needle: Seq<u8>,
)
    requires
        quiet(reg),
        0 <= i < reg.watches.len(),
        waiting(
            reg.watches[i],
            seq![PredicateModel::Pattern { base, stride, window, needle }],
        ),
        base + window <= i32::MAX,
        stride > 0,
    ensures
        needle.len() == 0 ==> script_eval::polled(reg, s, tick).fired[i],
        needle.len() > 0 && script_eval::polled(reg, s, tick).fired[i] ==> exists|slot: nat|
            slot * stride < window && #[trigger] needle_at(s, base, stride, window, needle, slot),
        forall|slot: nat|
            #[trigger] needle_at(s, base, stride, window, needle, slot) ==> script_eval::polled(
                reg,
                s,
                tick,
            ).fired[i],
{
    lemma_quiet_poll(reg, s, tick, i);
    let test = PredicateModel::Pattern { base, stride, window, needle };
    assert(seq![test][0] == test);
    assert(script_eval::all_hold(seq![test], s) == script_eval::holds(seq![test][0], s));
    assert forall|slot: nat| #[trigger]
        needle_at(s, base, stride, window, needle, slot) implies script_eval::holds(test, s) by {
        if needle.len() > 0 {
            lemma_needle_at(s, base, stride, window, needle, slot);
            assert(script_eval::stands_at_slot(s, base, stride, needle, slot as int));
        }
    }
    if needle.len() > 0 && script_eval::holds(test, s) {
        let slot = choose|slot: int|
            script_eval::in_window(window, stride, needle.len(), slot)
                && #[trigger] script_eval::stands_at_slot(s, base, stride, needle, slot);
        lemma_needle_at(s, base, stride, window, needle, slot as nat);
        assert(slot * stride <= (slot + needle.len() - 1) * stride) by (nonlinear_arith)
            requires
                needle.len() > 0,
                stride > 0,
                slot >= 0,
        ;
        assert(needle_at(s, base, stride, window, needle, slot as nat));
    }
}

/// Do the bytes of a needle stand at places `stride` apart, the first one `slot`
/// places behind the base, and all of them before the end of the window?
pub open spec fn needle_at(
    s: StateModel,
    base: i32,
    stride: u32,
    window: u32,
    needle: Seq<u8>,
    slot: nat,
) -> bool {
    forall|j: int|
        0 <= j < needle.len() ==> offset_holds(
            s,
            base,
            window,
            (slot + j) * stride,
            #[trigger] needle[j],
        )
}

/// Is the byte at an offset behind the base before the end of the window, and the
/// given one?
pub open spec fn offset_holds(s: StateModel, base: i32, window: u32, offset: int, byte: u8) -> bool {
    offset < window && s.read((base + offset) as i32) as int % 256 == byte
}

proof fn lemma_needle_at(
    s: StateModel,
    base: i32,
    stride: u32,
    window: u32,
    needle: Seq<u8>,
    slot: nat,
)
    requires
        needle.len() > 0,
        stride > 0,
        base + window <= i32::MAX,
    ensures
        needle_at(s, base, stride, window, needle, slot) == (script_eval::in_window(
            window,
            stride,
            needle.len(),
            slot as int,
        ) && script_eval::stands_at_slot(s, base, stride, needle, slot as int)),
{
    let n = needle.len();
    if needle_at(s, base, stride, window, needle, slot) {
        let last = needle[n - 1];
        assert(offset_holds(s, base, window, (slot + (n - 1)) * stride, last));
        assert((slot + n - 1) * stride < window);
        assert forall|j: int| 0 <= j < n implies state::low_byte(
            s.read(script_eval::place(base, (slot as int + j) * stride)),
        ) == #[trigger] needle[j] by {
            lemma_low_byte(s.read((base + (slot + j) * stride) as i32));
        }
        assert(script_eval::stands_at_slot(s, base, stride, needle, slot as int));
        assert(script_eval::in_window(window, stride, n, slot as int));
    }
    if script_eval::in_window(window, stride, n, slot as int) && script_eval::stands_at_slot(
        s,
        base,
        stride,
        needle,
        slot as int,
    ) {
        assert forall|j: int| 0 <= j < n implies offset_holds(
            s,
            base,
            window,
            (slot + j) * stride,
            #[trigger] needle[j],
        ) by {
            assert((slot + j) * stride <= (slot + n - 1) * stride) by (nonlinear_arith)
                requires
                    j <= n - 1,
                    stride > 0,
            ;
            lemma_low_byte(s.read(script_eval::place(base, (slot as int + j) * stride)));
        }
        assert(needle_at(s, base, stride, window, needle, slot));
    }
}

// ---------------------------------------------------------------------------
// Other conditions
// ---------------------------------------------------------------------------

/// When the watches that go by the tick alone fire in a poll: a stride watch from
/// `every` ticks behind its last fire on, though never at tick 0; a burst watch on
/// the first `count` ticks of every period; a scheduled watch at its tick.
pub proof fn law_ticks_in_a_poll(reg: RegistryModel, s: StateModel, tick: u32, i: int)
    requires
        quiet(reg),
        0 <= i < reg.watches.len(),
        reg.watches[i].gate is None,
    ensures
        ({
            let now = script_eval::polled(reg, s, tick);
            match reg.watches[i].kind {
                KindModel::Stride { every, last } => {
                    &&& now.fired[i] <==> every > 0 && tick > 0 && last + every <= tick
                    &&& now.reg.watches[i].kind == (KindModel::Stride {
                        every,
                        last: if now.fired[i] {
                            tick
                        } else {
                            last
                        },
                    })
                },
                KindModel::Burst { every, count } => now.fired[i] <==> exists|period: nat|
                    every > 0 && #[trigger] in_burst(period, every, count, tick),
                KindModel::At { tick: at } => now.fired[i] <==> tick == at,
                _ => true,
            }
        }),
{
    lemma_quiet_poll(reg, s, tick, i);
    if let KindModel::Burst { every, count } = reg.watches[i].kind {
        if every > 0 {
            let d = every as int;
            let q = tick as int / d;
            vstd::arithmetic::div_mod::lemma_fundamental_div_mod(tick as int, d);
            vstd::arithmetic::div_mod::lemma_mod_bound(tick as int, d);
            vstd::arithmetic::div_mod::lemma_div_pos_is_pos(tick as int, d);
            assert(d * q == q * d) by (nonlinear_arith);
            if tick % every < count {
                assert(in_burst(q as nat, every, count, tick));
            }
            assert forall|period: nat| #[trigger] in_burst(period, every, count, tick) implies tick
                % every < count by {
                let r = tick - period * every;
                vstd::arithmetic::div_mod::lemma_fundamental_div_mod_converse(
                    tick as int,
                    d,
                    period as int,
                    r,
                );
            }
        }
    }
}

/// Is a tick one of the first `count` of a period, and of that period?
pub open spec fn in_burst(period: nat, every: u32, count: u32, tick: u32) -> bool {
    0 <= tick - period * every < count && tick - period * every < every
}

/// An edge watch that was looked at in one poll fires in the next poll that looks at
/// it exactly if the low byte at its address differs between the two; a halt watch
/// fires exactly if the low byte at its address is not 0.
pub proof fn law_edges_in_polls(
    reg: RegistryModel,
    s: StateModel,
    tick: u32,
    later: RegistryModel,
    t: StateModel,
    later_tick: u32,
    i: int,
)
    requires
        quiet(reg),
        quiet(later),
        0 <= i < reg.watches.len() == later.watches.len(),
        reg.watches[i].gate is None,
        later.watches[i] == script_eval::polled(reg, s, tick).reg.watches[i],
    ensures
        reg.watches[i].kind matches KindModel::Edge { addr, primed, .. } ==> {
            &&& !primed ==> !script_eval::polled(reg, s, tick).fired[i]
            &&& script_eval::polled(later, t, later_tick).fired[i] <==> s.read(addr) as int % 256
                != t.read(addr) as int % 256
        },
        reg.watches[i].kind matches KindModel::Halt { addr } ==> (script_eval::polled(
            later,
            t,
            later_tick,
        ).fired[i] <==> t.read(addr) as int % 256 != 0),
{
    lemma_quiet_poll(reg, s, tick, i);
    lemma_quiet_poll(later, t, later_tick, i);
    match reg.watches[i].kind {
        KindModel::Edge { addr, .. } => {
            lemma_low_byte(s.read(addr));
            lemma_low_byte(t.read(addr));
        },
        KindModel::Halt { addr } => {
            lemma_low_byte(t.read(addr));
        },
        _ => {},
    }
}

/// A condition that does not repeat and fired in one poll does not fire in any later
/// one; one that repeats fires in every poll in which its tests hold.
pub proof fn law_conditions_in_polls(
    reg: RegistryModel,
    s: StateModel,
    tick: u32,
    later: RegistryModel,
    t: StateModel,
    later_tick: u32,
    i: int,
    tests: Seq<PredicateModel>,
)
    requires
        quiet(reg),
        quiet(later),
        0 <= i < reg.watches.len() == later.watches.len(),
        waiting(reg.watches[i], tests),
        later.watches[i] == script_eval::polled(reg, s, tick).reg.watches[i],
    ensures
        ({
            let repeat = reg.watches[i].kind->Cond_repeat;
            &&& script_eval::polled(reg, s, tick).fired[i] && !repeat ==> !script_eval::polled(
                later,
                t,
                later_tick,
            ).fired[i]
            &&& !script_eval::polled(reg, s, tick).fired[i] || repeat ==> waiting(
                later.watches[i],
                tests,
            )
        }),
{
    lemma_quiet_poll(reg, s, tick, i);
    lemma_quiet_poll(later, t, later_tick, i);
}

/// The registry in which watch `i` has no gate.
pub open spec fn ungated(reg: RegistryModel, i: int) -> RegistryModel {
    RegistryModel {
        watches: reg.watches.update(i, WatchModel { gate: None, ..reg.watches[i] }),
        ..reg
    }
}

/// A watch behind a gate fires exactly if its gate fires and it would fire without
/// one.
pub proof fn law_gate_in_a_poll(reg: RegistryModel, s: StateModel, tick: u32, i: int, k: int)
    requires
        quiet(reg),
        0 <= i < reg.watches.len(),
        0 <= k < reg.watches.len(),
        reg.watches[k].gate is None,
        reg.watches[i].gate == Some(reg.watches[k].name),
        forall|j: int| 0 <= j < k ==> (#[trigger] reg.watches[j]).name != reg.watches[k].name,
    ensures
        script_eval::polled(reg, s, tick).fired[i] <==> script_eval::polled(reg, s, tick).fired[k]
            && script_eval::polled(ungated(reg, i), s, tick).fired[i],
{
    lemma_first_named(reg.watches, k);
    assert(plain_gate(reg, i) == Some(k));
    lemma_quiet_poll(reg, s, tick, i);
    let free = ungated(reg, i);
    assert forall|j: int| 0 <= j < free.watches.len() implies watch_only_reports(
        #[trigger] free.watches[j],
    ) by {
        assert(watch_only_reports(reg.watches[j]));
    }
    lemma_quiet_poll(free, s, tick, i);
}

proof fn lemma_first_named(watches: Seq<WatchModel>, k: int)
    requires
        0 <= k < watches.len(),
        forall|j: int| 0 <= j < k ==> (#[trigger] watches[j]).name != watches[k].name,
    ensures
        script::first_named(watches, watches[k].name) == Some(k),
    decreases watches.len(),
{
    let name = watches[k].name;
    let rest = watches.drop_last();
    if k < rest.len() {
        assert forall|j: int| 0 <= j < k implies (#[trigger] rest[j]).name != rest[k].name by {
            assert(watches[j].name != watches[k].name);
        }
        lemma_first_named(rest, k);
    } else {
        assert forall|j: int| 0 <= j < rest.len() implies (#[trigger] rest[j]).name != name by {
            assert(watches[j].name != watches[k].name);
        }
        lemma_none_named(rest, name);
    }
}

proof fn lemma_none_named(watches: Seq<WatchModel>, name: Seq<char>)
    requires
        forall|j: int| 0 <= j < watches.len() ==> (#[trigger] watches[j]).name != name,
    ensures
        script::first_named(watches, name) is None,
    decreases watches.len(),
{
    if watches.len() > 0 {
        let rest = watches.drop_last();
        assert(watches[watches.len() - 1].name != name);
        assert forall|j: int| 0 <= j < rest.len() implies (#[trigger] rest[j]).name != name by {
            assert(watches[j].name != name);
        }
        lemma_none_named(rest, name);
    }
}

// ---------------------------------------------------------------------------
// What a watch that fires does
// ---------------------------------------------------------------------------

/// A registry with one watch, which has no gate, and no pulse waiting to end.
pub open spec fn alone(reg: RegistryModel) -> bool {
    &&& reg.watches.len() == 1
    &&& reg.fire_counts.len() == 1
    &&& reg.watches[0].gate is None
    &&& reg.pending.len() == 0
}

proof fn lemma_alone(reg: RegistryModel, s: StateModel, tick: u32)
    requires
        alone(reg),
    ensures
        ({
            let now = script_eval::polled(reg, s, tick);
            let start = script_eval::poll_start(reg, s, tick);
            let seen = start.looked_at(0, tick);
            &&& start.state == s
            &&& now.state == seen.state
            &&& now.fired == seen.fired
            &&& now.reg == (RegistryModel { gate_fired: seen.fired, ..seen.reg })
        }),
{
    reveal_with_fuel(PollModel::first_pass, 2);
    reveal_with_fuel(PollModel::second_pass, 2);
}

/// Does one of the actions report: emit, dump or take a snapshot?
pub open spec fn reports(actions: Seq<ActionModel>) -> bool {
    exists|j: int|
        0 <= j < actions.len() && ((#[trigger] actions[j]) is Emit || actions[j] is Dump
            || actions[j] is Snapshot)
}

/// Does one of the actions halt?
pub open spec fn halts(actions: Seq<ActionModel>) -> bool {
    exists|j: int| 0 <= j < actions.len() && (#[trigger] actions[j]) is Halt
}

proof fn lemma_reports(e: EffectsModel, actions: Seq<ActionModel>, o: Occasion)
    ensures
        e.all_performed(actions, o).emits == (e.emits || reports(actions)),
        e.all_performed(actions, o).halts == (e.halts || halts(actions)),
    decreases actions.len(),
{
    if actions.len() > 0 {
        let rest = actions.drop_last();
        lemma_reports(e, rest, o);
        let last = actions[actions.len() - 1];
        assert(last == actions.last());
        if reports(rest) {
            let j = choose|j: int|
                0 <= j < rest.len() && ((#[trigger] rest[j]) is Emit || rest[j] is Dump
                    || rest[j] is Snapshot);
            assert(actions[j] == rest[j]);
        }
        if halts(rest) {
            let j = choose|j: int| 0 <= j < rest.len() && (#[trigger] rest[j]) is Halt;
            assert(actions[j] == rest[j]);
        }
        if reports(actions) {
            let j = choose|j: int|
                0 <= j < actions.len() && ((#[trigger] actions[j]) is Emit || actions[j] is Dump
                    || actions[j] is Snapshot);
            assert(j < rest.len() ==> rest[j] == actions[j]);
        }
        if halts(actions) {
            let j = choose|j: int| 0 <= j < actions.len() && (#[trigger] actions[j]) is Halt;
            assert(j < rest.len() ==> rest[j] == actions[j]);
        }
    }
}

/// A watch that fires leaves one event if it or one of its actions reports or
/// halts, and none otherwise. The event holds the tick, the name of the watch and
/// its samples as they were before its actions, and says whether it halted; only
/// then is the registry halted by it. A watch that does not fire leaves nothing.
pub proof fn law_fire_leaves_one_event(reg: RegistryModel, s: StateModel, tick: u32)
    requires
        alone(reg),
    ensures
        ({
            let now = script_eval::polled(reg, s, tick);
            let w = reg.watches[0];
            let stops = w.kind is Halt || halts(w.actions);
            if now.fired[0] && (stops || reports(w.actions)) {
                &&& now.reg.events.len() == reg.events.len() + 1
                &&& now.reg.events.drop_last() == reg.events
                &&& now.reg.events.last().tick == tick
                &&& now.reg.events.last().name == w.name
                &&& now.reg.events.last().halted == stops
                &&& now.reg.events.last().sampled.len() == w.samples.len()
                &&& forall|j: int|
                    0 <= j < w.samples.len() ==> {
                        let sample = #[trigger] now.reg.events.last().sampled[j];
                        sample.0 == w.samples[j] && (match s.var(w.samples[j]) {
                            Some(v) => sample.1 == v,
                            None => sample.1 == 0,
                        })
                    }
                &&& now.reg.halt == (reg.halt || stops)
            } else {
                now.reg.events == reg.events && now.reg.halt == reg.halt
            }
        }),
        !script_eval::polled(reg, s, tick).fired[0] ==> script_eval::polled(reg, s, tick).reg.files
            == reg.files && script_eval::same_but_log(
            s,
            script_eval::polled(reg, s, tick).state,
        ),
{
    lemma_alone(reg, s, tick);
    lemma_decided(reg.watches[0].kind, s, s, tick);
    let d = script_eval::decided(reg.watches[0].kind, s, tick);
    let start = script_eval::poll_start(reg, s, tick);
    let known = start.reg.remembering(0, d.kind);
    let w = known.watches[0];
    let e = EffectsModel {
        state: d.state,
        emits: false,
        halts: w.kind is Halt,
        dumps: Seq::empty(),
        releases: Seq::empty(),
        files: Seq::empty(),
    };
    lemma_reports(e, w.actions, script_eval::occasion(known, w.name, tick));
    assert(d.state.names == s.names && d.state.vars == s.vars);
    let now = script_eval::polled(reg, s, tick);
    if d.fires && (w.kind is Halt || halts(w.actions) || reports(w.actions)) {
        assert(now.reg.events.drop_last() =~= reg.events);
    }
}

/// What a watch with the one action `dump` leaves when it fires: the low bytes at
/// `len` addresses from `addr` on. They stand in the event where dumps are kept in
/// memory, and otherwise in a file that the event names.
pub proof fn law_dump_holds_the_bytes(
    reg: RegistryModel,
    s: StateModel,
    tick: u32,
    addr: i32,
    len: u32,
    path: Seq<char>,
)
    requires
        alone(reg),
        reg.watches[0].actions == seq![ActionModel::Dump { addr, len, path }],
        script_eval::polled(reg, s, tick).fired[0],
        addr + len <= i32::MAX,
    ensures
        ({
            let now = script_eval::polled(reg, s, tick);
            let dumps = now.reg.events.last().dumps;
            &&& now.reg.events.len() == reg.events.len() + 1
            &&& dumps.len() == 1
            &&& dumps[0].addr == addr
            &&& dumps[0].tag == "mem"@
            &&& match reg.sink {
                DumpSink::Memory => {
                    &&& dumps[0].path is None
                    &&& now.reg.files == reg.files
                    &&& are_bytes_at(dumps[0].bytes, s, addr, len)
                },
                DumpSink::File => {
                    &&& dumps[0].bytes.len() == 0
                    &&& now.reg.files.len() == reg.files.len() + 1
                    &&& now.reg.files.drop_last() == reg.files
                    &&& dumps[0].path == Some(now.reg.files.last().path)
                    &&& now.reg.files.last().path == script_eval::rendered(
                        path,
                        tick,
                        reg.watches[0].name,
                    )
                    &&& now.reg.files.last().name == reg.watches[0].name
                    &&& now.reg.files.last().tag == "mem"@
                    &&& are_bytes_at(now.reg.files.last().bytes, s, addr, len)
                },
            }
        }),
{
    lemma_alone(reg, s, tick);
    lemma_decided(reg.watches[0].kind, s, s, tick);
    let d = script_eval::decided(reg.watches[0].kind, s, tick);
    let start = script_eval::poll_start(reg, s, tick);
    let known = start.reg.remembering(0, d.kind);
    let w = known.watches[0];
    let actions = w.actions;
    reveal_with_fuel(EffectsModel::all_performed, 2);
    assert(actions.drop_last() =~= Seq::empty());
    assert(actions.last() == (ActionModel::Dump { addr, len, path }));
    script_eval::lemma_same_reads(s, d.state);
    let bytes = script_eval::range_bytes(d.state, addr, len);
    assert forall|j: int| 0 <= j < len implies (#[trigger] bytes[j]) as int == s.read(
        (addr + j) as i32,
    ) as int % 256 by {
        lemma_low_byte(d.state.read(script_eval::place(addr, j)));
        assert(s.read((addr + j) as i32) == d.state.read((addr + j) as i32));
    }
    let now = script_eval::polled(reg, s, tick);
    assert(now.reg.files.len() > reg.files.len() ==> now.reg.files.drop_last() =~= reg.files);
    assert(Seq::<script::FileModel>::empty().len() == 0);
    assert(reg.files + Seq::<script::FileModel>::empty() =~= reg.files);
}

/// Are these the low bytes at `len` addresses from `addr` on?
pub open spec fn are_bytes_at(bytes: Seq<u8>, s: StateModel, addr: i32, len: u32) -> bool {
    &&& bytes.len() == len
    &&& forall|j: int|
        0 <= j < len ==> (#[trigger] bytes[j]) as int == s.read((addr + j) as i32) as int % 256
}

/// A watch with the one action `setvar` sets the variable when it fires and no
/// other; a variable that does not exist stays so.
pub proof fn law_setvar_sets_one_variable(
    reg: RegistryModel,
    s: StateModel,
    tick: u32,
    name: Seq<char>,
    value: i32,
)
    requires
        alone(reg),
        reg.watches[0].actions == seq![ActionModel::SetVar { name, value }],
        s.names.len() == s.vars.len(),
        script_eval::polled(reg, s, tick).fired[0],
    ensures
        ({
            let after = script_eval::polled(reg, s, tick).state;
            &&& s.var(name) is Some ==> after.var(name) == Some(value)
            &&& s.var(name) is None ==> after.var(name) is None
            &&& forall|other: Seq<char>|
                other != name ==> #[trigger] after.var(other) == s.var(other)
        }),
{
    lemma_alone(reg, s, tick);
    lemma_decided(reg.watches[0].kind, s, s, tick);
    let d = script_eval::decided(reg.watches[0].kind, s, tick);
    let start = script_eval::poll_start(reg, s, tick);
    let known = start.reg.remembering(0, d.kind);
    let actions = known.watches[0].actions;
    reveal_with_fuel(EffectsModel::all_performed, 2);
    assert(actions.drop_last() =~= Seq::empty());
    assert(actions.last() == (ActionModel::SetVar { name, value }));
    lemma_last_index(s.names, name);
    let after = script_eval::polled(reg, s, tick).state;
    assert(after == d.state.with_var(name, value));
    assert forall|other: Seq<char>| other != name implies #[trigger] after.var(other)
        == s.var(other) by {
        lemma_last_index(s.names, other);
    }
}

proof fn lemma_last_index(names: Seq<Seq<char>>, name: Seq<char>)
    ensures
        state::last_index(names, name) matches Some(i) ==> 0 <= i < names.len() && names[i] == name,
    decreases names.len(),
{
    if names.len() > 0 {
        lemma_last_index(names.drop_last(), name);
    }
}

} // verus!

//! How pulses start and end, and what snapshots hand to the sink.

use crate::memory_laws;
use crate::script::{ActionModel, RegistryModel, ReleaseModel, TargetModel};
use crate::script_eval;
use crate::script_eval::{EffectsModel, Occasion};
use crate::state;
use crate::state::StateModel;
use vstd::prelude::*;

verus! {

// ---------------------------------------------------------------------------
// Starts
// ---------------------------------------------------------------------------

/// The tick so many ticks later, or the last one that there is.
pub open spec fn later(tick: u32, hold: u32) -> int {
    if tick + hold <= u32::MAX {
        tick + hold
    } else {
        u32::MAX as int
    }
}

/// Nothing keeps a pulse from starting on the target.
pub open spec fn free(e: EffectsModel, o: Occasion, target: TargetModel) -> bool {
    &&& !script_eval::waits(o.pending, target)
    &&& !script_eval::waits(e.releases, target)
    &&& !o.released.contains(target)
}

/// A pulse on a variable holds it at the value; its end waits for the tick that comes
/// so many ticks later, at most the last tick.
pub proof fn law_variable_pulse_starts(
    e: EffectsModel,
    o: Occasion,
    name: Seq<char>,
    value: i32,
    hold: u32,
)
    requires
        free(e, o, TargetModel::Var(name)),
        e.state.names.contains(name),
        e.state.names.len() == e.state.vars.len(),
    ensures
        ({
            let next = e.performed(ActionModel::SetVarPulse { name, value, hold }, o);
            &&& next.state.var(name) == Some(value)
            &&& next.releases.len() == e.releases.len() + 1
            &&& next.releases.last().target == TargetModel::Var(name)
            &&& next.releases.last().tick == later(o.tick, hold)
        }),
{
    state::lemma_last_index(e.state.names, name);
    let at = e.state.names.index_of(name);
    assert(e.state.names[at] == name);
}

/// A pulse on a pseudo-class raises it on the selector; its end waits as that of a
/// pulse on a variable does.
pub proof fn law_pseudo_pulse_starts(
    e: EffectsModel,
    o: Occasion,
    pseudo: Seq<char>,
    selector: Seq<char>,
    hold: u32,
)
    requires
        e.state.active.no_duplicates(),
    ensures
        ({
            let target = TargetModel::Pseudo(pseudo, selector);
            let next = e.performed(ActionModel::PseudoPulse { pseudo, selector, hold }, o);
            if free(e, o, target) {
                &&& next.state.gate_active((pseudo, selector))
                &&& next.releases.len() == e.releases.len() + 1
                &&& next.releases.last().target == target
                &&& next.releases.last().tick == later(o.tick, hold)
            } else {
                next == e
            }
        }),
{
    memory_laws::law_gate_report_holds(e.state, (pseudo, selector), true);
}

// ---------------------------------------------------------------------------
// Ends
// ---------------------------------------------------------------------------

proof fn lemma_with_var(s: StateModel, name: Seq<char>, value: i32, other: Seq<char>)
    requires
        s.names.len() == s.vars.len(),
        s.names.contains(other),
    ensures
        s.with_var(name, value).var(other) == if name == other {
            Some(value)
        } else {
            s.var(other)
        },
{
    state::lemma_last_index(s.names, name);
    state::lemma_last_index(s.names, other);
    let at = s.names.index_of(other);
    assert(s.names[at] == other);
}

proof fn lemma_shape_kept(s: StateModel, t: TargetModel)
    requires
        s.groups.len() == 0,
        s.names.len() == s.vars.len(),
    ensures
        s.released(t).groups == s.groups,
        s.released(t).names == s.names,
        s.released(t).vars.len() == s.vars.len(),
        t is Pseudo ==> s.released(t).vars == s.vars,
{
    state::lemma_last_index(
        s.names,
        match t {
            TargetModel::Var(name) => name,
            _ => Seq::empty(),
        },
    );
}

proof fn lemma_released_variable(
    pending: Seq<ReleaseModel>,
    s: StateModel,
    tick: u32,
    name: Seq<char>,
)
    requires
        s.groups.len() == 0,
        s.names.len() == s.vars.len(),
        s.names.contains(name),
    ensures
        ({
            let after = script_eval::all_released(pending, s, tick).state;
            &&& after.groups == s.groups
            &&& after.names == s.names
            &&& after.vars.len() == s.vars.len()
            &&& after.var(name) == if exists|i: int|
                0 <= i < pending.len() && (#[trigger] pending[i]).tick <= tick && pending[i].target
                    == TargetModel::Var(name) {
                Some(0i32)
            } else {
                s.var(name)
            }
        }),
    decreases pending.len(),
{
    if pending.len() > 0 {
        let less = pending.drop_last();
        let before = script_eval::all_released(less, s, tick).state;
        let r = pending.last();
        lemma_released_variable(less, s, tick, name);
        lemma_shape_kept(before, r.target);
        if let TargetModel::Var(n) = r.target {
            lemma_with_var(before, n, 0, name);
        }
        let last = pending.len() - 1;
        assert(pending[last] == r);
        assert(forall|i: int| 0 <= i < less.len() ==> less[i] == pending[i]);
        let early = exists|i: int|
            0 <= i < less.len() && (#[trigger] less[i]).tick <= tick && less[i].target
                == TargetModel::Var(name);
        if early {
            let i = choose|i: int|
                0 <= i < less.len() && (#[trigger] less[i]).tick <= tick && less[i].target
                    == TargetModel::Var(name);
            assert(pending[i].tick <= tick);
        } else if exists|i: int|
            0 <= i < pending.len() && (#[trigger] pending[i]).tick <= tick && pending[i].target
                == TargetModel::Var(name) {
            let i = choose|i: int|
                0 <= i < pending.len() && (#[trigger] pending[i]).tick <= tick && pending[i].target
                    == TargetModel::Var(name);
            if i < last {
                assert(less[i].tick <= tick);
            }
        }
    }
}

/// At the start of a poll a variable whose pulse is due is 0, and every other one is as
/// it was, where no group of inputs drives variables.
pub proof fn law_due_variables_fall(
    reg: RegistryModel,
    s: StateModel,
    tick: u32,
    name: Seq<char>,
)
    requires
        s.groups.len() == 0,
        s.names.len() == s.vars.len(),
        s.names.contains(name),
    ensures
        script_eval::poll_start(reg, s, tick).state.var(name) == if exists|i: int|
            0 <= i < reg.pending.len() && (#[trigger] reg.pending[i]).tick <= tick
                && reg.pending[i].target == TargetModel::Var(name) {
            Some(0i32)
        } else {
            s.var(name)
        },
{
    lemma_released_variable(reg.pending, s, tick, name);
}

proof fn lemma_gate_off(s: StateModel, gate: (Seq<char>, Seq<char>), other: (Seq<char>, Seq<char>))
    requires
        s.active.no_duplicates(),
    ensures
        s.with_gate(gate, false).active.no_duplicates(),
        s.with_gate(gate, false).gate_active(other) == (s.gate_active(other) && gate != other),
{
    memory_laws::law_gate_report_holds(s, gate, false);
    let after = s.with_gate(gate, false);
    if s.active.contains(gate) {
        let at = s.active.index_of(gate);
        assert(s.active[at] == gate);
        assert(after.active == s.active.remove(at));
        if s.gate_active(other) && gate != other {
            let i = s.active.index_of(other);
            assert(s.active[i] == other);
            assert(after.active[if i < at {
                i
            } else {
                i - 1
            }] == other);
        }
        if after.gate_active(other) {
            let i = after.active.index_of(other);
            assert(after.active[i] == other);
            assert(s.active[if i < at {
                i
            } else {
                i + 1
            }] == other);
        }
    }
}

proof fn lemma_released_gate(
    pending: Seq<ReleaseModel>,
    s: StateModel,
    tick: u32,
    gate: (Seq<char>, Seq<char>),
)
    requires
        s.active.no_duplicates(),
    ensures
        ({
            let after = script_eval::all_released(pending, s, tick).state;
            &&& after.active.no_duplicates()
            &&& after.gate_active(gate) == (s.gate_active(gate) && !exists|i: int|
                0 <= i < pending.len() && (#[trigger] pending[i]).tick <= tick && pending[i].target
                    == TargetModel::Pseudo(gate.0, gate.1))
        }),
    decreases pending.len(),
{
    if pending.len() > 0 {
        let less = pending.drop_last();
        let before = script_eval::all_released(less, s, tick).state;
        let r = pending.last();
        lemma_released_gate(less, s, tick, gate);
        if let TargetModel::Pseudo(p, q) = r.target {
            lemma_gate_off(before, (p, q), gate);
        }
        let last = pending.len() - 1;
        assert(pending[last] == r);
        assert(forall|i: int| 0 <= i < less.len() ==> less[i] == pending[i]);
        if exists|i: int|
            0 <= i < less.len() && (#[trigger] less[i]).tick <= tick && less[i].target
                == TargetModel::Pseudo(gate.0, gate.1) {
            let i = choose|i: int|
                0 <= i < less.len() && (#[trigger] less[i]).tick <= tick && less[i].target
                    == TargetModel::Pseudo(gate.0, gate.1);
            assert(pending[i].tick <= tick);
        } else if exists|i: int|
            0 <= i < pending.len() && (#[trigger] pending[i]).tick <= tick && pending[i].target
                == TargetModel::Pseudo(gate.0, gate.1) {
            let i = choose|i: int|
                0 <= i < pending.len() && (#[trigger] pending[i]).tick <= tick && pending[i].target
                    == TargetModel::Pseudo(gate.0, gate.1);
            if i < last {
                assert(less[i].tick <= tick);
            }
        }
    }
}

/// At the start of a poll a pseudo-class whose pulse is due is inactive, and every other
/// one is as it was.
pub proof fn law_due_pseudo_classes_fall(
    reg: RegistryModel,
    s: StateModel,
    tick: u32,
    gate: (Seq<char>, Seq<char>),
)
    requires
        s.active.no_duplicates(),
    ensures
        script_eval::poll_start(reg, s, tick).state.gate_active(gate) == (s.gate_active(gate)
            && !exists|i: int|
            0 <= i < reg.pending.len() && (#[trigger] reg.pending[i]).tick <= tick
                && reg.pending[i].target == TargetModel::Pseudo(gate.0, gate.1)),
{
    lemma_released_gate(reg.pending, s, tick, gate);
}

// ---------------------------------------------------------------------------
// Snapshots
// ---------------------------------------------------------------------------

/// A snapshot action hands over the bytes of a snapshot as from address 0, and changes
/// nothing in the state: into the event, or into a file that the event names.
pub proof fn law_snapshot_action(e: EffectsModel, o: Occasion, path: Seq<char>)
    ensures
        ({
            let next = e.performed(ActionModel::Snapshot { path }, o);
            let dump = next.dumps.last();
            &&& next.state == e.state
            &&& next.emits
            &&& next.dumps.len() == e.dumps.len() + 1
            &&& dump.addr == 0
            &&& dump.tag == "snapshot"@
            &&& o.sink is Memory ==> dump.bytes == e.state.snapshot_bytes() && dump.path is None
                && next.files == e.files
            &&& o.sink is File ==> dump.bytes.len() == 0 && next.files.len() == e.files.len() + 1
                && next.files.last().bytes == e.state.snapshot_bytes() && dump.path == Some(
                next.files.last().path,
            ) && next.files.last().name == o.name
        }),
{
}

} // verus!

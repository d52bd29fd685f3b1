//! Bulk application of recognised loops.
//!
//! Instead of one iteration per tick, all iterations of a loop are applied at
//! once: the bytes move, and on request the counter, the pointers, the
//! instruction pointer and the cost counter are brought to where the last
//! iteration would have left them. The appliers act by shape alone; which
//! registers a loop uses is read from its descriptor.

use crate::names;
use crate::pattern::loop_descriptor as loops;
use crate::pattern::loop_descriptor::runtime;
use crate::pattern::loop_descriptor::{
    BulkClass, LoopDescriptor, LoopModel, PointerEntry, PointerModel,
};
use crate::program::{CompiledProgram, ProgramModel};
use crate::state::{State, StateModel};
use vstd::prelude::*;

pub mod comparisons;
pub mod copy;
pub mod effects;
pub mod fill;
pub mod laws;
pub mod naming;
pub mod ranges;
pub mod read_only;
pub mod registers;

pub use copy::{apply_copy, apply_copy_with_commit};
pub use fill::{apply_fill, apply_fill_with_commit};
pub use read_only::{apply_read_only, apply_read_only_with_commit, compute_sub_flags};

verus! {

/// What came of applying a loop.
#[derive(Debug, Clone, Copy, PartialEq, Eq)]
pub enum ApplyOutcome {
    /// The loop was applied.
    Applied {
        /// How many iterations were applied.
        iterations: i32,
    },
    /// The loop's own bodies are not in effect.
    PreconditionNotMet,
    /// The loop must be evaluated one iteration at a time.
    PerIterFallback(&'static str),
    /// The loop cannot be applied.
    Unsupported(&'static str),
}

/// How much of the last iteration's result is stored.
#[derive(Debug, Clone, Copy, PartialEq, Eq, Structural)]
pub enum CommitMode {
    /// Memory only.
    MemoryOnly,
    /// Memory and the registers.
    Full,
}

/// The value of an [`ApplyOutcome`].
pub enum OutcomeModel {
    Applied(i32),
    PreconditionNotMet,
    PerIterFallback(Seq<char>),
    Unsupported(Seq<char>),
}

impl ApplyOutcome {
    /// The value of an outcome.
    pub open spec fn view(&self) -> OutcomeModel {
        match self {
            ApplyOutcome::Applied { iterations } => OutcomeModel::Applied(*iterations),
            ApplyOutcome::PreconditionNotMet => OutcomeModel::PreconditionNotMet,
            ApplyOutcome::PerIterFallback(m) => OutcomeModel::PerIterFallback(m@),
            ApplyOutcome::Unsupported(m) => OutcomeModel::Unsupported(m@),
        }
    }
}

/// The outcome that says why a loop cannot be applied.
pub open spec fn unsupported<T>(reason: Seq<char>) -> Result<T, OutcomeModel> {
    Err(OutcomeModel::Unsupported(reason))
}

/// What a loop is applied to: the program, the state and the slots of the tick.
#[verifier::ext_equal]
pub struct Context {
    pub program: ProgramModel,
    pub state: StateModel,
    pub slots: Seq<i32>,
}

impl Context {
    /// The current value of a property.
    pub open spec fn get(self, name: Seq<char>) -> Option<i32> {
        self.program.property(self.state, self.slots, name)
    }

    /// The current value of a property, 0 where there is none.
    pub open spec fn get_or_zero(self, name: Seq<char>) -> i32 {
        self.program.property_or_zero(self.state, self.slots, name)
    }
}

/// Are all direction bits bits of a 32-bit word?
pub open spec fn bits_in_word(d: LoopModel) -> bool {
    forall|i: int| 0 <= i < d.pointers.len() ==> (#[trigger] d.pointers[i]).bit < 32
}

/// What every application checks first; on success the number of iterations,
/// which is then positive.
pub open spec fn begun(
    d: LoopModel,
    c: Context,
    commit: CommitMode,
    class: BulkClass,
    wrong_class: Seq<char>,
) -> Result<i32, OutcomeModel> {
    if d.class != class {
        unsupported(wrong_class)
    } else if !runtime::undisturbed(d.overrides, c.program, c.state, c.slots) {
        Err(OutcomeModel::PreconditionNotMet)
    } else if d.charge is None {
        unsupported("per_iter_cycles not extracted"@)
    } else if commit == CommitMode::Full && d.ip_extra is None {
        unsupported("ip_extra_advance_slot not captured"@)
    } else if commit == CommitMode::Full && c.get(d.ip_extra->0) is None {
        unsupported("ip_extra_advance_slot unresolved"@)
    } else {
        match d.counter {
            Some(counter) => match c.get(counter.property) {
                Some(n) => if n <= 0 {
                    Err(OutcomeModel::Applied(0))
                } else {
                    Ok(n)
                },
                None => unsupported("counter unresolved"@),
            },
            None => unsupported("no counter"@),
        }
    }
}

/// Does an optional outcome stand for a checked value?
pub open spec fn result_is<T>(r: Result<T, ApplyOutcome>, model: Result<T, OutcomeModel>) -> bool {
    match r {
        Ok(x) => model == Ok::<T, OutcomeModel>(x),
        Err(o) => model == Err::<T, OutcomeModel>(o.view()),
    }
}

/// Checks what every application checks first.
fn begin(
    descriptor: &LoopDescriptor,
    program: &CompiledProgram,
    state: &State,
    slots: &[i32],
    commit: CommitMode,
    class: BulkClass,
    wrong_class: &'static str,
) -> (r: Result<i32, ApplyOutcome>)
    requires
        state.wf(),
        program.view().fits(slots@),
    ensures
        result_is(
            r,
            begun(
                descriptor.view(),
                Context { program: program.view(), state: state@, slots: slots@ },
                commit,
                class,
                wrong_class@,
            ),
        ),
{
    if descriptor.bulk_class != class {
        return Err(ApplyOutcome::Unsupported(wrong_class));
    }
    if let Some(pre) = &descriptor.precondition {
        if !runtime::evaluate_precondition(pre, program, state, slots) {
            return Err(ApplyOutcome::PreconditionNotMet);
        }
    }
    if descriptor.per_iter_cycles.is_none() {
        return Err(ApplyOutcome::Unsupported("per_iter_cycles not extracted"));
    }
    if commit == CommitMode::Full {
        match &descriptor.ip_extra_advance_slot {
            Some(slot) => if program.read_prop(state, slots, slot.as_str()).is_none() {
                return Err(ApplyOutcome::Unsupported("ip_extra_advance_slot unresolved"));
            },
            None => return Err(ApplyOutcome::Unsupported("ip_extra_advance_slot not captured")),
        }
    }
    match &descriptor.counter {
        Some(counter) => match program.read_prop(state, slots, counter.property.as_str()) {
            Some(n) => if n <= 0 {
                Err(ApplyOutcome::Applied { iterations: 0 })
            } else {
                Ok(n)
            },
            None => Err(ApplyOutcome::Unsupported("counter unresolved")),
        },
        None => Err(ApplyOutcome::Unsupported("no counter")),
    }
}

// ---------------------------------------------------------------------------
// Stepping
// ---------------------------------------------------------------------------

/// Does a pointer step down: is its direction bit set?
pub open spec fn steps_down(flags: i32, bit: u32) -> bool {
    (flags >> bit) & 1 != 0
}

/// The offsets that a pointer covers in `n` iterations, end excluded.
pub open spec fn covered(ptr: int, n: int, step: int, down: bool) -> (int, int) {
    if down {
        (ptr - (n - 1) * step, ptr + step)
    } else {
        (ptr, ptr + n * step)
    }
}

/// Do the offsets stay within a 64 KiB segment?
pub open spec fn within_segment(range: (int, int)) -> bool {
    range.0 >= 0 && range.1 <= 0x10000
}

/// The low 16 bits of a number.
pub open spec fn low_word(x: int) -> i32 {
    (x % 0x10000) as i32
}

/// Takes the low 16 bits of a number.
fn take_low_word(x: i64) -> (r: i32)
    ensures
        r == low_word(x as int),
        0 <= r < 0x10000,
{
    let r: i64 = x & 0xFFFF;
    assert(x & 0xFFFF == x % 0x10000 && 0 <= (x & 0xFFFF) < 0x10000) by (bit_vector);
    r as i32
}

/// Computes the offsets that a pointer covers.
fn cover(ptr: i32, n: i32, step: i32, down: bool) -> (r: (i64, i64))
    requires
        n > 0,
    ensures
        (r.0 as int, r.1 as int) == covered(ptr as int, n as int, step as int, down),
{
    assert(-0x4000_0000_0000_0000 <= n * step <= 0x4000_0000_0000_0000) by (nonlinear_arith)
        requires
            0 < n <= 0x7fff_ffff,
            -0x8000_0000 <= step <= 0x7fff_ffff,
    ;
    assert(-0x4000_0000_0000_0000 <= (n - 1) * step <= 0x4000_0000_0000_0000) by (nonlinear_arith)
        requires
            0 < n <= 0x7fff_ffff,
            -0x8000_0000 <= step <= 0x7fff_ffff,
    ;
    if down {
        (ptr as i64 - (n as i64 - 1) * step as i64, ptr as i64 + step as i64)
    } else {
        (ptr as i64, ptr as i64 + n as i64 * step as i64)
    }
}

// ---------------------------------------------------------------------------
// Pointers
// ---------------------------------------------------------------------------

/// The first pointer with a given prior value.
pub open spec fn pointer_named(pointers: Seq<PointerModel>, prior: Seq<char>) -> Option<
    PointerModel,
>
    decreases pointers.len(),
{
    if pointers.len() == 0 {
        None
    } else {
        match pointer_named(pointers.drop_last(), prior) {
            Some(p) => Some(p),
            None => if pointers.last().prior == prior {
                Some(pointers.last())
            } else {
                None
            },
        }
    }
}

/// Finds the first pointer with a given prior value.
fn find_pointer<'a>(pointers: &'a Vec<PointerEntry>, prior: &String) -> (r: Option<&'a PointerEntry>)
    ensures
        match r {
            Some(p) => pointer_named(loops::pointers_view(pointers@), prior@) == Some(p.view()),
            None => pointer_named(loops::pointers_view(pointers@), prior@) is None,
        },
        r matches Some(p) ==> exists|i: int| 0 <= i < pointers@.len() && pointers@[i] == *p,
{
    let ghost all = loops::pointers_view(pointers@);
    let mut found: Option<&'a PointerEntry> = None;
    let mut i: usize = 0;
    assert(all.subrange(0, 0) =~= Seq::<PointerModel>::empty());
    while i < pointers.len()
        invariant
            i <= pointers@.len(),
            all == loops::pointers_view(pointers@),
            match found {
                Some(p) => pointer_named(all.subrange(0, i as int), prior@) == Some(p.view()),
                None => pointer_named(all.subrange(0, i as int), prior@) is None,
            },
            found matches Some(p) ==> exists|i: int|
                0 <= i < pointers@.len() && pointers@[i] == *p,
        decreases pointers@.len() - i,
    {
        assert(all.subrange(0, i + 1).drop_last() =~= all.subrange(0, i as int));
        assert(all.subrange(0, i + 1).last() == pointers@[i as int].view());
        if found.is_none() && pointers[i].self_property == *prior {
            found = Some(&pointers[i]);
        }
        i += 1;
    }
    assert(all.subrange(0, i as int) =~= all);
    found
}

// ---------------------------------------------------------------------------
// Registers
// ---------------------------------------------------------------------------

impl StateModel {
    /// The state with the variable of a property set; nothing changes if there
    /// is no such variable.
    pub open spec fn committed(self, property: Seq<char>, value: i32) -> StateModel {
        self.with_var(names::canonical(property), value)
    }

    /// The state after the last of `iters` iterations advanced the instruction
    /// pointer past the loop and charged the cost of all of them.
    pub open spec fn advanced(
        self,
        d: LoopModel,
        p: ProgramModel,
        slots: Seq<i32>,
        iters: i32,
    ) -> StateModel {
        let ip = match self.var(names::canonical(d.ip)) {
            Some(v) => v,
            None => 0,
        };
        let extra = match d.ip_extra {
            Some(slot) => p.property_or_zero(self, slots, slot),
            None => 0,
        };
        let moved = self.committed(d.ip, low_word(ip + d.ip_advance + extra));
        match d.charge {
            Some(charge) => match moved.var(names::canonical(charge.property)) {
                Some(cost) => moved.committed(
                    charge.property,
                    cost.wrapping_add(iters.wrapping_mul(charge.per_iter)),
                ),
                None => moved,
            },
            None => moved,
        }
    }
}

/// Stores the value of a property in its variable, if it has one.
fn commit_pointer(state: &mut State, property: &str, value: i32)
    requires
        old(state).wf(),
    ensures
        final(state).wf(),
        final(state)@ == old(state)@.committed(property@, value),
{
    state.set_var(names::to_bare_name(property), value);
}

/// Advances the instruction pointer and charges the cost.
fn commit_ip_and_cycles(
    program: &CompiledProgram,
    state: &mut State,
    slots: &[i32],
    descriptor: &LoopDescriptor,
    iters: i32,
)
    requires
        old(state).wf(),
        program.view().fits(slots@),
    ensures
        final(state).wf(),
        final(state)@ == old(state)@.advanced(descriptor.view(), program.view(), slots@, iters),
{
    let ip: i32 = match state.get_var(names::to_bare_name(descriptor.ip_property.as_str())) {
        Some(v) => v,
        None => 0,
    };
    let extra: i32 = match &descriptor.ip_extra_advance_slot {
        Some(slot) => program.read_or_zero(state, slots, slot.as_str()),
        None => 0,
    };
    let sum: i64 = ip as i64 + descriptor.ip_advance_literal as i64 + extra as i64;
    commit_pointer(state, descriptor.ip_property.as_str(), take_low_word(sum));
    if let Some(charge) = &descriptor.per_iter_cycles {
        let variable: &str = names::to_bare_name(charge.property.as_str());
        if let Some(cost) = state.get_var(variable) {
            state.set_var(variable, cost.wrapping_add(iters.wrapping_mul(charge.per_iter)));
        }
    }
}

} // verus!

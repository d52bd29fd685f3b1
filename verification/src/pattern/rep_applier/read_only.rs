//! Loops that walk pointers without writing: comparisons and plain walks.

use crate::pattern::loop_descriptor::{
    BulkClass, ComparisonModel, ComparisonShape, ComparisonSource, LoopDescriptor, LoopModel,
    PointerEntry, PointerModel, SourceModel,
};
use crate::pattern::rep_applier as rep;
use crate::pattern::rep_applier::{ApplyOutcome, CommitMode, Context, OutcomeModel};
use crate::program::CompiledProgram;
use crate::state::{State, StateModel};
use vstd::prelude::*;

verus! {

// ---------------------------------------------------------------------------
// Flags of a subtraction
// ---------------------------------------------------------------------------

/// How many bits of a number are set.
pub open spec fn ones(x: nat) -> nat
    decreases x,
{
    if x == 0 {
        0
    } else {
        x % 2 + ones(x / 2)
    }
}

/// The flags that a comparison sets: carry, parity, adjust, zero, sign and
/// overflow.
pub const COMPARED_FLAGS: i32 = 0x8D5;

/// A byte or word as a signed number.
pub open spec fn signed(x: int, size: int) -> int {
    if x >= size / 2 {
        x - size
    } else {
        x
    }
}

/// One flag, set or clear.
pub open spec fn flag(set: bool, bit: i32) -> i32 {
    if set {
        bit
    } else {
        0
    }
}

/// The flag word after subtracting `y` from `x` in numbers below `size`.
pub open spec fn difference_flags(x: int, y: int, size: int, before: i32) -> i32 {
    let r = if x >= y {
        x - y
    } else {
        x - y + size
    };
    let difference = signed(x, size) - signed(y, size);
    (before & !COMPARED_FLAGS) | flag(x < y, 0x001) | flag(ones((r % 0x100) as nat) % 2 == 0, 0x004)
        | flag(x % 16 < y % 16, 0x010) | flag(r == 0, 0x040) | flag(r >= size / 2, 0x080) | flag(
        difference < -(size / 2) || difference >= size / 2,
        0x800,
    )
}

/// The flag word after subtracting `b` from `a` as bytes or words: the six
/// arithmetic flags are those of the subtraction, the others stay.
pub open spec fn subtraction_flags(a: i32, b: i32, word: bool, before: i32) -> i32 {
    if word {
        difference_flags(a as int % 0x10000, b as int % 0x10000, 0x10000, before)
    } else {
        difference_flags(a as int % 0x100, b as int % 0x100, 0x100, before)
    }
}

/// Counts the bits of a number.
fn count_ones(x: u32) -> (r: u32)
    ensures
        r == ones(x as nat),
{
    let mut left: u32 = x;
    let mut sum: u32 = 0;
    while left > 0
        invariant
            sum + left <= x,
            sum + ones(left as nat) == ones(x as nat),
        decreases left,
    {
        sum += left % 2;
        left = left / 2;
    }
    sum
}

/// One flag, set or clear.
fn flag_of(set: bool, bit: i32) -> (r: i32)
    ensures
        r == flag(set, bit),
{
    if set {
        bit
    } else {
        0
    }
}

/// Computes the flag word after a subtraction of numbers below `size`.
fn flags_of_difference(x: i32, y: i32, size: i32, prev_flags: i32) -> (r: i32)
    requires
        size == 0x100 || size == 0x10000,
        0 <= x < size,
        0 <= y < size,
    ensures
        r == difference_flags(x as int, y as int, size as int, prev_flags),
{
    let r: i32 = if x >= y {
        x - y
    } else {
        x - y + size
    };
    let half: i32 = size / 2;
    let sx: i32 = if x >= half {
        x - size
    } else {
        x
    };
    let sy: i32 = if y >= half {
        y - size
    } else {
        y
    };
    let difference: i32 = sx - sy;
    let carry: i32 = flag_of(x < y, 0x001);
    let parity: i32 = flag_of(count_ones((r % 0x100) as u32) % 2 == 0, 0x004);
    let adjust: i32 = flag_of(x % 16 < y % 16, 0x010);
    let zero: i32 = flag_of(r == 0, 0x040);
    let sign: i32 = flag_of(r >= half, 0x080);
    let overflow: i32 = flag_of(difference < -half || difference >= half, 0x800);
    (prev_flags & !COMPARED_FLAGS) | carry | parity | adjust | zero | sign | overflow
}

/// Computes the flag word after a subtraction.
pub fn compute_sub_flags(a: i32, b: i32, is_word: bool, prev_flags: i32) -> (r: i32)
    ensures
        r == subtraction_flags(a, b, is_word, prev_flags),
{
    if is_word {
        flags_of_difference(
            rep::take_low_word(a as i64),
            rep::take_low_word(b as i64),
            0x10000,
            prev_flags,
        )
    } else {
        flags_of_difference(take_low_byte(a), take_low_byte(b), 0x100, prev_flags)
    }
}

/// Takes the low 8 bits of a number.
fn take_low_byte(x: i32) -> (r: i32)
    ensures
        r == x as int % 0x100,
        0 <= r < 0x100,
{
    assert(x & 0xFF == x % 0x100 && 0 <= (x & 0xFF) < 0x100) by (bit_vector);
    x & 0xFF
}

// ---------------------------------------------------------------------------
// The plan
// ---------------------------------------------------------------------------

/// The second operand of a comparison.
pub enum OperandModel {
    /// Memory at an offset behind a base.
    Memory { base: int, ptr: int },
    /// A register's value.
    Register(i32),
}

/// What a comparing loop does.
pub struct CompareModel {
    pub n: i32,
    pub delta: int,
    pub dst_base: int,
    pub dst_ptr: int,
    pub operand: OperandModel,
    pub word: bool,
    pub repeat: i32,
}

/// The linear base of a segment register: its low 16 bits times 16, or the
/// register itself where it already holds a base.
pub open spec fn segment_base(raw: i32, scaled: bool) -> int {
    if scaled {
        (raw as int % 0x10000) * 16
    } else {
        raw as int
    }
}

/// The pointer that a comparison names as its destination.
pub open spec fn destination(d: LoopModel, shape: ComparisonModel) -> Option<PointerModel> {
    rep::pointer_named(d.pointers, shape.pointer)
}

/// The pointer that a comparison names as its source.
pub open spec fn origin(d: LoopModel, shape: ComparisonModel) -> Option<PointerModel> {
    match shape.source {
        SourceModel::Pointer { pointer, .. } => rep::pointer_named(d.pointers, pointer),
        SourceModel::Accumulator { .. } => None,
    }
}

/// The second operand of a comparison with the destination `dst`, or the reason
/// why there is none.
pub open spec fn operand_of(
    d: LoopModel,
    shape: ComparisonModel,
    dst: PointerModel,
    c: Context,
) -> Result<OperandModel, OutcomeModel> {
    match shape.source {
        SourceModel::Pointer { segment, scaled, pointer } => if d.pointers.len() != 2 {
            rep::unsupported("comparison_shape says Pointer source but descriptor has 1 pointer"@)
        } else if pointer == shape.pointer {
            rep::unsupported("comparison dst and src pointer names match"@)
        } else {
            match origin(d, shape) {
                None => rep::unsupported("comparison src pointer not in descriptor.pointers"@),
                Some(src) => if src.step != dst.step || src.flag != dst.flag || src.bit != dst.bit {
                    rep::unsupported("CMPS-shape pointers disagree on step / direction flag"@)
                } else {
                    match c.get(src.prior) {
                        None => rep::unsupported("src pointer unresolved"@),
                        Some(ptr) => Ok(
                            OperandModel::Memory {
                                base: segment_base(c.get_or_zero(segment), scaled),
                                ptr: ptr as int % 0x10000,
                            },
                        ),
                    }
                },
            }
        },
        SourceModel::Accumulator { byte, word } => if d.pointers.len() == 2 {
            rep::unsupported(
                "comparison_shape says Accumulator source but descriptor has 2 pointers"@,
            )
        } else if shape.width == 2 {
            Ok(OperandModel::Register(rep::low_word(c.get_or_zero(word) as int)))
        } else {
            Ok(OperandModel::Register((c.get_or_zero(byte) as int % 0x100) as i32))
        },
    }
}

/// The plan of a comparing loop with `n` iterations left, or the outcome that
/// says why there is none. Which pointer is the destination and which the source
/// is for the comparison to say, not for their order.
pub open spec fn compared(d: LoopModel, shape: ComparisonModel, c: Context, n: i32) -> Result<
    CompareModel,
    OutcomeModel,
> {
    match destination(d, shape) {
        None => rep::unsupported("comparison dst pointer not in descriptor.pointers"@),
        Some(dst) => match (c.get(dst.prior), c.get(dst.flag)) {
            (None, _) => rep::unsupported("dst pointer unresolved"@),
            (Some(_), None) => rep::unsupported("flag_property unresolved"@),
            (Some(ptr), Some(flags)) => match operand_of(d, shape, dst, c) {
                Err(o) => Err(o),
                Ok(operand) => Ok(
                    CompareModel {
                        n,
                        delta: if rep::steps_down(flags, dst.bit) {
                            -dst.step
                        } else {
                            dst.step as int
                        },
                        dst_base: segment_base(c.get_or_zero(shape.segment), shape.scaled),
                        dst_ptr: ptr as int % 0x10000,
                        operand,
                        word: shape.width == 2,
                        repeat: match shape.repeat {
                            Some(slot) => c.get_or_zero(slot),
                            None => 0,
                        },
                    },
                ),
            },
        },
    }
}

/// The plan of a read-only loop. A loop whose predicate tests one property only
/// has nothing to compare: without registers to store, all its iterations are
/// done at once.
pub open spec fn read_only_plan(d: LoopModel, c: Context, commit: CommitMode) -> Result<
    CompareModel,
    OutcomeModel,
> {
    match rep::begun(d, c, commit, BulkClass::ReadOnly, "not ReadOnly class"@) {
        Err(o) => Err(o),
        Ok(n) => if d.writes.len() != 0 {
            rep::unsupported("ReadOnly expects no writes"@)
        } else if d.pointers.len() == 0 || d.pointers.len() > 2 {
            rep::unsupported("ReadOnly expects 1 or 2 pointers"@)
        } else if !d.flag_conditioned {
            if d.pointers.len() != 1 {
                rep::unsupported("LODS shape (flag_conditioned=false) expects exactly 1 pointer"@)
            } else if commit == CommitMode::Full {
                rep::unsupported(
                    "LODS-shape Full commit not implemented (accumulator target not modelled)"@,
                )
            } else {
                Err(OutcomeModel::Applied(n))
            }
        } else {
            match d.comparison {
                None => rep::unsupported("comparison_shape not captured"@),
                Some(shape) => compared(d, shape, c, n),
            }
        },
    }
}

/// The second operand in executable form.
enum Operand {
    Memory { base: i64, ptr: i64 },
    Register(i32),
}

/// A plan in executable form.
struct ComparePlan {
    n: i32,
    delta: i64,
    dst_base: i64,
    dst_ptr: i64,
    operand: Operand,
    word: bool,
    repeat: i32,
}

impl Operand {
    /// The value of an operand.
    spec fn view(&self) -> OperandModel {
        match self {
            Operand::Memory { base, ptr } => OperandModel::Memory {
                base: *base as int,
                ptr: *ptr as int,
            },
            Operand::Register(v) => OperandModel::Register(*v),
        }
    }

    /// The bounds that keep addresses small.
    spec fn small(&self) -> bool {
        match self {
            Operand::Memory { base, ptr } => -0x8000_0000 <= *base <= 0x7fff_ffff && 0 <= *ptr
                < 0x10000,
            Operand::Register(_) => true,
        }
    }
}

impl ComparePlan {
    /// The value of a plan.
    spec fn view(&self) -> CompareModel {
        CompareModel {
            n: self.n,
            delta: self.delta as int,
            dst_base: self.dst_base as int,
            dst_ptr: self.dst_ptr as int,
            operand: self.operand.view(),
            word: self.word,
            repeat: self.repeat,
        }
    }

    /// The bounds that keep addresses small.
    spec fn small(&self) -> bool {
        &&& self.n > 0
        &&& -0x8000_0000 <= self.delta <= 0x8000_0000
        &&& -0x8000_0000 <= self.dst_base <= 0x7fff_ffff
        &&& 0 <= self.dst_ptr < 0x10000
        &&& self.operand.small()
    }
}

/// Computes the linear base of a segment register.
fn base_of(raw: i32, scaled: bool) -> (r: i64)
    ensures
        r == segment_base(raw, scaled),
        -0x8000_0000 <= r <= 0x7fff_ffff,
{
    if scaled {
        rep::take_low_word(raw as i64) as i64 * 16
    } else {
        raw as i64
    }
}

/// Finds the second operand.
fn find_operand(
    descriptor: &LoopDescriptor,
    shape: &ComparisonShape,
    dst: &PointerEntry,
    program: &CompiledProgram,
    state: &State,
    slots: &[i32],
) -> (r: Result<Operand, ApplyOutcome>)
    requires
        state.wf(),
        program.view().fits(slots@),
        1 <= descriptor.pointers@.len() <= 2,
    ensures
        match r {
            Ok(x) => operand_of(
                descriptor.view(),
                shape.view(),
                dst.view(),
                Context { program: program.view(), state: state@, slots: slots@ },
            ) == Ok::<OperandModel, OutcomeModel>(x.view()) && x.small(),
            Err(o) => operand_of(
                descriptor.view(),
                shape.view(),
                dst.view(),
                Context { program: program.view(), state: state@, slots: slots@ },
            ) == Err::<OperandModel, OutcomeModel>(o.view()),
        },
{
    let ghost d = descriptor.view();
    match &shape.source {
        ComparisonSource::Pointer { seg_property, seg_times_sixteen, ptr_property } => {
            if descriptor.pointers.len() != 2 {
                return Err(
                    ApplyOutcome::Unsupported(
                        "comparison_shape says Pointer source but descriptor has 1 pointer",
                    ),
                );
            }
            if *ptr_property == shape.dst_ptr_property {
                return Err(ApplyOutcome::Unsupported("comparison dst and src pointer names match"));
            }
            let src: &PointerEntry = match rep::find_pointer(&descriptor.pointers, ptr_property) {
                Some(p) => p,
                None => {
                    return Err(
                        ApplyOutcome::Unsupported(
                            "comparison src pointer not in descriptor.pointers",
                        ),
                    );
                },
            };
            if src.base_step != dst.base_step || src.flag_property != dst.flag_property
                || src.flag_bit != dst.flag_bit {
                return Err(
                    ApplyOutcome::Unsupported(
                        "CMPS-shape pointers disagree on step / direction flag",
                    ),
                );
            }
            let ptr: i32 = match program.read_prop(state, slots, src.self_property.as_str()) {
                Some(v) => v,
                None => {
                    return Err(ApplyOutcome::Unsupported("src pointer unresolved"));
                },
            };
            let raw: i32 = program.read_or_zero(state, slots, seg_property.as_str());
            Ok(
                Operand::Memory {
                    base: base_of(raw, *seg_times_sixteen),
                    ptr: rep::take_low_word(ptr as i64) as i64,
                },
            )
        },
        ComparisonSource::Accumulator { byte_property, word_property } => {
            if descriptor.pointers.len() == 2 {
                return Err(
                    ApplyOutcome::Unsupported(
                        "comparison_shape says Accumulator source but descriptor has 2 pointers",
                    ),
                );
            }
            if shape.width == 2 {
                let raw: i32 = program.read_or_zero(state, slots, word_property.as_str());
                Ok(Operand::Register(rep::take_low_word(raw as i64)))
            } else {
                let raw: i32 = program.read_or_zero(state, slots, byte_property.as_str());
                Ok(Operand::Register(take_low_byte(raw)))
            }
        },
    }
}

/// Makes the plan of a read-only loop.
fn plan_read_only(
    descriptor: &LoopDescriptor,
    program: &CompiledProgram,
    state: &State,
    slots: &[i32],
    commit: CommitMode,
) -> (r: Result<ComparePlan, ApplyOutcome>)
    requires
        state.wf(),
        program.view().fits(slots@),
        rep::bits_in_word(descriptor.view()),
    ensures
        match r {
            Ok(plan) => read_only_plan(
                descriptor.view(),
                Context { program: program.view(), state: state@, slots: slots@ },
                commit,
            ) == Ok::<CompareModel, OutcomeModel>(plan.view()) && plan.small(),
            Err(o) => read_only_plan(
                descriptor.view(),
                Context { program: program.view(), state: state@, slots: slots@ },
                commit,
            ) == Err::<CompareModel, OutcomeModel>(o.view()),
        },
{
    let ghost d = descriptor.view();
    let n: i32 = match rep::begin(
        descriptor,
        program,
        state,
        slots,
        commit,
        BulkClass::ReadOnly,
        "not ReadOnly class",
    ) {
        Ok(n) => n,
        Err(o) => {
            return Err(o);
        },
    };
    if descriptor.writes.len() != 0 {
        return Err(ApplyOutcome::Unsupported("ReadOnly expects no writes"));
    }
    let count: usize = descriptor.pointers.len();
    if count == 0 || count > 2 {
        return Err(ApplyOutcome::Unsupported("ReadOnly expects 1 or 2 pointers"));
    }
    if !descriptor.flag_conditioned {
        if count != 1 {
            return Err(
                ApplyOutcome::Unsupported(
                    "LODS shape (flag_conditioned=false) expects exactly 1 pointer",
                ),
            );
        }
        if commit == CommitMode::Full {
            return Err(
                ApplyOutcome::Unsupported(
                    "LODS-shape Full commit not implemented (accumulator target not modelled)",
                ),
            );
        }
        return Err(ApplyOutcome::Applied { iterations: n });
    }
    let shape = match &descriptor.comparison_shape {
        Some(x) => x,
        None => {
            return Err(ApplyOutcome::Unsupported("comparison_shape not captured"));
        },
    };
    let dst: &PointerEntry = match rep::find_pointer(
        &descriptor.pointers,
        &shape.dst_ptr_property,
    ) {
        Some(p) => p,
        None => {
            return Err(
                ApplyOutcome::Unsupported("comparison dst pointer not in descriptor.pointers"),
            );
        },
    };
    assert(dst.flag_bit < 32) by {
        let i = choose|i: int|
            0 <= i < descriptor.pointers@.len() && descriptor.pointers@[i] == *dst;
        assert(d.pointers[i] == dst.view());
    }
    let raw: i32 = program.read_or_zero(state, slots, shape.dst_seg_property.as_str());
    let ptr: i32 = match program.read_prop(state, slots, dst.self_property.as_str()) {
        Some(v) => v,
        None => {
            return Err(ApplyOutcome::Unsupported("dst pointer unresolved"));
        },
    };
    let flags: i32 = match program.read_prop(state, slots, dst.flag_property.as_str()) {
        Some(v) => v,
        None => {
            return Err(ApplyOutcome::Unsupported("flag_property unresolved"));
        },
    };
    let operand: Operand = match find_operand(descriptor, shape, dst, program, state, slots) {
        Ok(x) => x,
        Err(o) => {
            return Err(o);
        },
    };
    let repeat: i32 = match &shape.rep_type_property {
        Some(slot) => program.read_or_zero(state, slots, slot.as_str()),
        None => 0,
    };
    let delta: i64 = if (flags >> dst.flag_bit) & 1 != 0 {
        -(dst.base_step as i64)
    } else {
        dst.base_step as i64
    };
    Ok(
        ComparePlan {
            n,
            delta,
            dst_base: base_of(raw, shape.dst_seg_times_sixteen),
            dst_ptr: rep::take_low_word(ptr as i64) as i64,
            operand,
            word: shape.width == 2,
            repeat,
        },
    )
}

// ---------------------------------------------------------------------------
// The effect
// ---------------------------------------------------------------------------

/// The linear address of an offset behind a base, within the first megabyte.
pub open spec fn linear(base: int, offset: int) -> i32 {
    ((base + offset) % 0x100000) as i32
}

impl StateModel {
    /// The byte or the little-endian word that a comparison reads at an offset
    /// behind a base.
    pub open spec fn fetched(self, base: int, offset: int, word: bool) -> i32 {
        let low = self.read(linear(base, offset)) & 0xFF;
        if word {
            let high = self.after_read(linear(base, offset)).read(
                linear(base, offset + 1),
            ) & 0xFF;
            low | (high << 8u32)
        } else {
            low
        }
    }

    /// The state after that read.
    pub open spec fn after_fetch(self, base: int, offset: int, word: bool) -> StateModel {
        let next = self.after_read(linear(base, offset));
        if word {
            next.after_read(linear(base, offset + 1))
        } else {
            next
        }
    }
}

/// Where a comparing loop ended.
#[verifier::ext_equal]
pub struct RunModel {
    pub state: StateModel,
    pub dst_ptr: int,
    pub src_ptr: int,
    pub iters: int,
    pub last_dst: i32,
    pub last_src: i32,
}

impl CompareModel {
    /// Does the loop end after an iteration that compared these values: on a
    /// difference while it repeats as long as they are equal, on equality while
    /// it repeats as long as they differ?
    pub open spec fn ends(self, dst: i32, src: i32) -> bool {
        (self.repeat == 1 && src != dst) || (self.repeat == 2 && src == dst)
    }

    /// One iteration from the given offsets.
    pub open spec fn step(self, s: StateModel, dst_ptr: int, src_ptr: int) -> RunModel {
        let last_dst = s.fetched(self.dst_base, dst_ptr, self.word);
        let read = s.after_fetch(self.dst_base, dst_ptr, self.word);
        let (last_src, state, next_src) = match self.operand {
            OperandModel::Memory { base, .. } => (
                read.fetched(base, src_ptr, self.word),
                read.after_fetch(base, src_ptr, self.word),
                (src_ptr + self.delta) % 0x10000,
            ),
            OperandModel::Register(v) => (v, read, src_ptr),
        };
        RunModel {
            state,
            dst_ptr: (dst_ptr + self.delta) % 0x10000,
            src_ptr: next_src,
            iters: 1,
            last_dst,
            last_src,
        }
    }

    /// At most `left` iterations, and at least one, from the given offsets on.
    pub open spec fn run(self, s: StateModel, dst_ptr: int, src_ptr: int, left: int) -> RunModel
        decreases left,
    {
        let first = self.step(s, dst_ptr, src_ptr);
        if left <= 1 || self.ends(first.last_dst, first.last_src) {
            first
        } else {
            let rest = self.run(first.state, first.dst_ptr, first.src_ptr, left - 1);
            RunModel { iters: rest.iters + 1, ..rest }
        }
    }

    /// The whole run.
    pub open spec fn whole_run(self, s: StateModel) -> RunModel {
        let src_ptr = match self.operand {
            OperandModel::Memory { ptr, .. } => ptr,
            OperandModel::Register(_) => 0,
        };
        self.run(s, self.dst_ptr, src_ptr, self.n as int)
    }

    /// The flag word after a run: that of the last comparison. A comparison of
    /// memory with memory subtracts the destination from the source, one with a
    /// register subtracts the memory from the register.
    pub open spec fn flags_after(self, run: RunModel, before: i32) -> i32 {
        match self.operand {
            OperandModel::Memory { .. } => subtraction_flags(
                run.last_src,
                run.last_dst,
                self.word,
                before,
            ),
            OperandModel::Register(v) => subtraction_flags(v, run.last_dst, self.word, before),
        }
    }
}

/// Outcome and state after applying a read-only loop.
pub open spec fn read_only_result(d: LoopModel, c: Context, commit: CommitMode) -> (
    OutcomeModel,
    StateModel,
) {
    match read_only_plan(d, c, commit) {
        Ok(plan) => {
            let run = plan.whole_run(c.state);
            let shape = d.comparison->0;
            let dst = destination(d, shape)->0;
            (
                OutcomeModel::Applied(run.iters as i32),
                if commit == CommitMode::Full {
                    let moved = run.state.committed(dst.property, run.dst_ptr as i32);
                    let both = match origin(d, shape) {
                        Some(src) => moved.committed(src.property, run.src_ptr as i32),
                        None => moved,
                    };
                    let counted = both.committed(
                        d.counter->0.property,
                        rep::low_word(plan.n - run.iters),
                    );
                    let before = c.program.property_or_zero(counted, c.slots, dst.flag);
                    counted.committed(dst.flag, plan.flags_after(run, before)).advanced(
                        d,
                        c.program,
                        c.slots,
                        run.iters as i32,
                    )
                } else {
                    run.state
                },
            )
        },
        Err(o) => (o, c.state),
    }
}

/// Reads the byte or word at an offset behind a base.
fn fetch(state: &mut State, base: i64, offset: i64, word: bool) -> (r: i32)
    requires
        old(state).wf(),
        -0x8000_0000 <= base <= 0x7fff_ffff,
        0 <= offset < 0x10000,
    ensures
        final(state).wf(),
        r == old(state)@.fetched(base as int, offset as int, word),
        final(state)@ == old(state)@.after_fetch(base as int, offset as int, word),
{
    let at: i64 = base + offset;
    let first: i64 = at & 0xFFFFF;
    assert(at & 0xFFFFF == at % 0x100000 && 0 <= (at & 0xFFFFF) < 0x100000) by (bit_vector);
    let low: i32 = state.read_mem(first as i32) & 0xFF;
    if word {
        let behind: i64 = at + 1;
        let second: i64 = behind & 0xFFFFF;
        assert(behind & 0xFFFFF == behind % 0x100000 && 0 <= (behind & 0xFFFFF) < 0x100000)
            by (bit_vector);
        let high: i32 = state.read_mem(second as i32) & 0xFF;
        low | (high << 8u32)
    } else {
        low
    }
}

/// Where a comparing loop ended, in executable form.
struct RunEnd {
    dst_ptr: i32,
    src_ptr: i32,
    iters: i32,
    last_dst: i32,
    last_src: i32,
}

/// Moves an offset within its segment.
fn move_offset(offset: i64, delta: i64) -> (r: i64)
    requires
        0 <= offset < 0x10000,
        -0x8000_0000 <= delta <= 0x8000_0000,
    ensures
        r == (offset + delta) % 0x10000,
        0 <= r < 0x10000,
{
    let moved: i64 = offset + delta;
    assert(moved & 0xFFFF == moved % 0x10000 && 0 <= (moved & 0xFFFF) < 0x10000) by (bit_vector);
    moved & 0xFFFF
}

/// Runs one iteration of a comparing loop.
fn step_compare(state: &mut State, plan: &ComparePlan, dst: i64, src: i64) -> (r: RunEnd)
    requires
        old(state).wf(),
        plan.small(),
        0 <= dst < 0x10000,
        0 <= src < 0x10000,
    ensures
        final(state).wf(),
        plan.view().step(old(state)@, dst as int, src as int) == (RunModel {
            state: final(state)@,
            dst_ptr: r.dst_ptr as int,
            src_ptr: r.src_ptr as int,
            iters: 1,
            last_dst: r.last_dst,
            last_src: r.last_src,
        }),
        0 <= r.dst_ptr < 0x10000,
        0 <= r.src_ptr < 0x10000,
        r.iters == 1,
{
    let last_dst: i32 = fetch(state, plan.dst_base, dst, plan.word);
    let dst_ptr: i64 = move_offset(dst, plan.delta);
    match &plan.operand {
        Operand::Memory { base, .. } => {
            let last_src: i32 = fetch(state, *base, src, plan.word);
            let src_ptr: i64 = move_offset(src, plan.delta);
            RunEnd { dst_ptr: dst_ptr as i32, src_ptr: src_ptr as i32, iters: 1, last_dst, last_src }
        },
        Operand::Register(v) => RunEnd {
            dst_ptr: dst_ptr as i32,
            src_ptr: src as i32,
            iters: 1,
            last_dst,
            last_src: *v,
        },
    }
}

/// Runs a comparing loop.
fn run_compare(state: &mut State, plan: &ComparePlan) -> (r: RunEnd)
    requires
        old(state).wf(),
        plan.small(),
    ensures
        final(state).wf(),
        plan.view().whole_run(old(state)@) == (RunModel {
            state: final(state)@,
            dst_ptr: r.dst_ptr as int,
            src_ptr: r.src_ptr as int,
            iters: r.iters as int,
            last_dst: r.last_dst,
            last_src: r.last_src,
        }),
        1 <= r.iters <= plan.n,
{
    let ghost m = plan.view();
    let ghost whole = m.whole_run(state@);
    let mut dst: i64 = plan.dst_ptr;
    let mut src: i64 = match &plan.operand {
        Operand::Memory { ptr, .. } => *ptr,
        Operand::Register(_) => 0,
    };
    let mut iters: i32 = 0;
    loop
        invariant
            0 <= iters < plan.n,
            plan.small(),
            m == plan.view(),
            whole == m.whole_run(old(state)@),
            state.wf(),
            0 <= dst < 0x10000,
            0 <= src < 0x10000,
            whole == ({
                let rest = m.run(state@, dst as int, src as int, plan.n - iters);
                RunModel { iters: rest.iters + iters, ..rest }
            }),
        decreases plan.n - iters,
    {
        let ghost before = state@;
        let one: RunEnd = step_compare(state, plan, dst, src);
        let ghost first = m.step(before, dst as int, src as int);
        let ends: bool = (plan.repeat == 1 && one.last_src != one.last_dst) || (plan.repeat == 2
            && one.last_src == one.last_dst);
        assert(ends == m.ends(first.last_dst, first.last_src));
        iters += 1;
        if ends || iters == plan.n {
            assert(m.run(before, dst as int, src as int, plan.n - (iters - 1)) == first);
            return RunEnd {
                dst_ptr: one.dst_ptr,
                src_ptr: one.src_ptr,
                iters,
                last_dst: one.last_dst,
                last_src: one.last_src,
            };
        }
        dst = one.dst_ptr as i64;
        src = one.src_ptr as i64;
    }
}

/// Applies a loop that writes nothing, in memory only: nothing changes but the
/// log of reads.
pub fn apply_read_only(
    descriptor: &LoopDescriptor,
    program: &CompiledProgram,
    state: &mut State,
    slots: &[i32],
) -> (r: ApplyOutcome)
    requires
        old(state).wf(),
        program.view().fits(slots@),
        rep::bits_in_word(descriptor.view()),
    ensures
        final(state).wf(),
        (r.view(), final(state)@) == read_only_result(
            descriptor.view(),
            Context { program: program.view(), state: old(state)@, slots: slots@ },
            CommitMode::MemoryOnly,
        ),
{
    apply_read_only_with_commit(descriptor, program, state, slots, CommitMode::MemoryOnly)
}

/// Applies a loop that writes nothing.
pub fn apply_read_only_with_commit(
    descriptor: &LoopDescriptor,
    program: &CompiledProgram,
    state: &mut State,
    slots: &[i32],
    commit: CommitMode,
) -> (r: ApplyOutcome)
    requires
        old(state).wf(),
        program.view().fits(slots@),
        rep::bits_in_word(descriptor.view()),
    ensures
        final(state).wf(),
        (r.view(), final(state)@) == read_only_result(
            descriptor.view(),
            Context { program: program.view(), state: old(state)@, slots: slots@ },
            commit,
        ),
{
    let ghost d = descriptor.view();
    let plan: ComparePlan = match plan_read_only(descriptor, program, state, slots, commit) {
        Ok(plan) => plan,
        Err(o) => {
            return o;
        },
    };
    let end: RunEnd = run_compare(state, &plan);
    if commit == CommitMode::Full {
        let shape: &ComparisonShape = match &descriptor.comparison_shape {
            Some(x) => x,
            None => {
                return ApplyOutcome::Unsupported("comparison_shape not captured");
            },
        };
        let dst: &PointerEntry = match rep::find_pointer(
            &descriptor.pointers,
            &shape.dst_ptr_property,
        ) {
            Some(p) => p,
            None => {
                return ApplyOutcome::Unsupported("dst pointer unresolved");
            },
        };
        rep::commit_pointer(state, dst.property.as_str(), end.dst_ptr);
        if let ComparisonSource::Pointer { ptr_property, .. } = &shape.source {
            if let Some(src) = rep::find_pointer(&descriptor.pointers, ptr_property) {
                rep::commit_pointer(state, src.property.as_str(), end.src_ptr);
            }
        }
        if let Some(counter) = &descriptor.counter {
            let left: i32 = rep::take_low_word((plan.n - end.iters) as i64);
            rep::commit_pointer(state, counter.property.as_str(), left);
        }
        let before: i32 = program.read_or_zero(state, slots, dst.flag_property.as_str());
        let first: i32 = match &plan.operand {
            Operand::Memory { .. } => end.last_src,
            Operand::Register(v) => *v,
        };
        let flags: i32 = compute_sub_flags(first, end.last_dst, plan.word, before);
        rep::commit_pointer(state, dst.flag_property.as_str(), flags);
        rep::commit_ip_and_cycles(program, state, slots, descriptor, end.iters);
    }
    ApplyOutcome::Applied { iterations: end.iters }
}

} // verus!

//! Loops that store the same bytes in every iteration.

use crate::pattern::loop_descriptor as loops;
use crate::pattern::loop_descriptor::{
    BulkClass, LoopDescriptor, LoopModel, PointerEntry, StoreModel, WriteEntry,
};
use crate::pattern::rep_applier as rep;
use crate::pattern::rep_applier::{ApplyOutcome, CommitMode, Context, OutcomeModel};
use crate::program::CompiledProgram;
use crate::state::{State, StateModel};
use crate::types;
use crate::types::{Expr, ExprModel};
use vstd::prelude::*;

verus! {

// ---------------------------------------------------------------------------
// The plan
// ---------------------------------------------------------------------------

/// What a fill does: `n` iterations from offset `ptr`, one byte per write at its
/// segment base plus the offset plus the write's position.
#[verifier::ext_equal]
pub struct FillModel {
    pub n: i32,
    pub ptr: i32,
    pub step: i32,
    pub down: bool,
    pub bytes: Seq<(int, u8)>,
}

/// The value that a write stores: that of a variable.
pub open spec fn fill_value(e: ExprModel, c: Context) -> Option<i32> {
    match e {
        ExprModel::Var(name, _) => c.get(name),
        _ => None,
    }
}

/// Segment base and byte of one write.
pub open spec fn prepared(w: StoreModel, c: Context) -> Result<(int, u8), OutcomeModel> {
    match w.parts {
        Some((segment, _)) => match c.get(segment) {
            Some(base) => match fill_value(w.value, c) {
                Some(v) => Ok((base * 16, crate::state::low_byte(v))),
                None => rep::unsupported("val_expr shape not yet supported"@),
            },
            None => rep::unsupported("seg_property unresolved"@),
        },
        None => rep::unsupported("write has no addr_decomposition"@),
    }
}

/// Segment base and byte of every write, or the first reason why one has none.
pub open spec fn all_prepared(writes: Seq<StoreModel>, c: Context) -> Result<
    Seq<(int, u8)>,
    OutcomeModel,
>
    decreases writes.len(),
{
    if writes.len() == 0 {
        Ok(Seq::empty())
    } else {
        match all_prepared(writes.drop_last(), c) {
            Ok(list) => match prepared(writes.last(), c) {
                Ok(x) => Ok(list.push(x)),
                Err(o) => Err(o),
            },
            Err(o) => Err(o),
        }
    }
}

/// The plan of a fill, or the outcome that says why there is none.
pub open spec fn fill_plan(d: LoopModel, c: Context, commit: CommitMode) -> Result<
    FillModel,
    OutcomeModel,
> {
    match rep::begun(d, c, commit, BulkClass::Fill, "not Fill class"@) {
        Ok(n) => if d.pointers.len() != 1 {
            rep::unsupported("Fill expects exactly one pointer"@)
        } else {
            let p = d.pointers[0];
            match (c.get(p.prior), c.get(p.flag)) {
                (None, _) => rep::unsupported("pointer self_property unresolved"@),
                (Some(_), None) => rep::unsupported("flag_property unresolved"@),
                (Some(ptr), Some(flags)) => if d.writes.len() == 0 {
                    rep::unsupported("Fill expects at least one write"@)
                } else if d.writes.len() != p.step {
                    rep::unsupported("writes.len() != base_step (per-iter byte count mismatch)"@)
                } else {
                    match all_prepared(d.writes, c) {
                        Ok(bytes) => {
                            let down = rep::steps_down(flags, p.bit);
                            let range = rep::covered(ptr as int, n as int, p.step as int, down);
                            let base = bytes[0].0;
                            if !rep::within_segment(range) {
                                rep::unsupported("pointer would wrap past 16-bit segment"@)
                            } else if c.program.touches_virtual(c.state, base + range.0, base + range.1) {
                                Err(
                                    OutcomeModel::PerIterFallback(
                                        "destination range overlaps virtual region"@,
                                    ),
                                )
                            } else {
                                Ok(FillModel { n, ptr, step: p.step, down, bytes })
                            }
                        },
                        Err(o) => Err(o),
                    }
                },
            }
        },
        Err(o) => Err(o),
    }
}

/// A plan in executable form.
struct FillPlan {
    n: i32,
    ptr: i32,
    step: i32,
    down: bool,
    bytes: Vec<(i64, u8)>,
}

/// The values of a list of prepared bytes.
pub open spec fn bytes_view(v: Seq<(i64, u8)>) -> Seq<(int, u8)> {
    Seq::new(v.len(), |i: int| (v[i].0 as int, v[i].1))
}

impl FillPlan {
    /// The value of a plan.
    spec fn view(&self) -> FillModel {
        FillModel {
            n: self.n,
            ptr: self.ptr,
            step: self.step,
            down: self.down,
            bytes: bytes_view(self.bytes@),
        }
    }
}

/// Reads the value that a write stores.
fn resolve_fill_value(
    e: &Expr,
    program: &CompiledProgram,
    state: &State,
    slots: &[i32],
) -> (r: Option<i32>)
    requires
        state.wf(),
        program.view().fits(slots@),
    ensures
        r == fill_value(
            e.view(),
            Context { program: program.view(), state: state@, slots: slots@ },
        ),
{
    match e {
        Expr::Var { name, .. } => program.read_prop(state, slots, name.as_str()),
        _ => {
            proof {
                types::lemma_calc(e);
            }
            None
        },
    }
}

/// Prepares one write.
fn prepare(w: &WriteEntry, program: &CompiledProgram, state: &State, slots: &[i32]) -> (r: Result<
    (i64, u8),
    ApplyOutcome,
>)
    requires
        state.wf(),
        program.view().fits(slots@),
    ensures
        match r {
            Ok((base, byte)) => prepared(
                w.view(),
                Context { program: program.view(), state: state@, slots: slots@ },
            ) == Ok::<(int, u8), OutcomeModel>((base as int, byte)) && -0x8_0000_0000 <= base
                <= 0x8_0000_0000,
            Err(o) => prepared(
                w.view(),
                Context { program: program.view(), state: state@, slots: slots@ },
            ) == Err::<(int, u8), OutcomeModel>(o.view()),
        },
{
    match &w.addr_decomposition {
        Some((segment, _)) => match program.read_prop(state, slots, segment.as_str()) {
            Some(base) => match resolve_fill_value(&w.val_expr, program, state, slots) {
                Some(v) => Ok((base as i64 * 16, (v & 0xFF) as u8)),
                None => Err(ApplyOutcome::Unsupported("val_expr shape not yet supported")),
            },
            None => Err(ApplyOutcome::Unsupported("seg_property unresolved")),
        },
        None => Err(ApplyOutcome::Unsupported("write has no addr_decomposition")),
    }
}

/// Prepares every write.
fn prepare_all(
    writes: &Vec<WriteEntry>,
    program: &CompiledProgram,
    state: &State,
    slots: &[i32],
) -> (r: Result<Vec<(i64, u8)>, ApplyOutcome>)
    requires
        state.wf(),
        program.view().fits(slots@),
    ensures
        match r {
            Ok(list) => all_prepared(
                loops::stores_view(writes@),
                Context { program: program.view(), state: state@, slots: slots@ },
            ) == Ok::<Seq<(int, u8)>, OutcomeModel>(bytes_view(list@)) && list@.len()
                == writes@.len() && forall|i: int|
                0 <= i < list@.len() ==> -0x8_0000_0000 <= (#[trigger] list@[i]).0
                    <= 0x8_0000_0000,
            Err(o) => all_prepared(
                loops::stores_view(writes@),
                Context { program: program.view(), state: state@, slots: slots@ },
            ) == Err::<Seq<(int, u8)>, OutcomeModel>(o.view()),
        },
{
    let ghost c = Context { program: program.view(), state: state@, slots: slots@ };
    let ghost all = loops::stores_view(writes@);
    let mut out: Vec<(i64, u8)> = Vec::new();
    let mut i: usize = 0;
    assert(all.subrange(0, 0) =~= Seq::<StoreModel>::empty());
    assert(bytes_view(out@) =~= Seq::<(int, u8)>::empty());
    while i < writes.len()
        invariant
            i <= writes@.len(),
            state.wf(),
            program.view().fits(slots@),
            c == (Context { program: program.view(), state: state@, slots: slots@ }),
            all == loops::stores_view(writes@),
            out@.len() == i,
            forall|j: int|
                0 <= j < i ==> -0x8_0000_0000 <= (#[trigger] out@[j]).0 <= 0x8_0000_0000,
            all_prepared(all.subrange(0, i as int), c) == Ok::<Seq<(int, u8)>, OutcomeModel>(
                bytes_view(out@),
            ),
        decreases writes@.len() - i,
    {
        assert(all.subrange(0, i + 1).drop_last() =~= all.subrange(0, i as int));
        assert(all.subrange(0, i + 1).last() == writes@[i as int].view());
        match prepare(&writes[i], program, state, slots) {
            Ok(x) => {
                let ghost before = out@;
                out.push(x);
                assert(bytes_view(out@) =~= bytes_view(before).push((x.0 as int, x.1)));
            },
            Err(o) => {
                proof {
                    lemma_first_error(all, c, i + 1);
                }
                return Err(o);
            },
        }
        i += 1;
    }
    assert(all.subrange(0, i as int) =~= all);
    Ok(out)
}

/// A write that cannot be prepared decides the outcome for all longer lists.
proof fn lemma_first_error(writes: Seq<StoreModel>, c: Context, n: int)
    requires
        0 <= n <= writes.len(),
        all_prepared(writes.subrange(0, n), c) is Err,
    ensures
        all_prepared(writes, c) == all_prepared(writes.subrange(0, n), c),
    decreases writes.len() - n,
{
    if n == writes.len() {
        assert(writes.subrange(0, n) =~= writes);
    } else {
        assert(writes.subrange(0, n + 1).drop_last() =~= writes.subrange(0, n));
        lemma_first_error(writes, c, n + 1);
    }
}

/// As many writes are prepared as there are.
proof fn lemma_prepared_len(writes: Seq<StoreModel>, c: Context)
    ensures
        all_prepared(writes, c) matches Ok(list) ==> list.len() == writes.len(),
    decreases writes.len(),
{
    if writes.len() > 0 {
        lemma_prepared_len(writes.drop_last(), c);
    }
}

/// Makes the plan of a fill.
fn plan_fill(
    descriptor: &LoopDescriptor,
    program: &CompiledProgram,
    state: &State,
    slots: &[i32],
    commit: CommitMode,
) -> (r: Result<FillPlan, ApplyOutcome>)
    requires
        state.wf(),
        program.view().fits(slots@),
        rep::bits_in_word(descriptor.view()),
    ensures
        match r {
            Ok(plan) => fill_plan(
                descriptor.view(),
                Context { program: program.view(), state: state@, slots: slots@ },
                commit,
            ) == Ok::<FillModel, OutcomeModel>(plan.view()) && forall|i: int|
                0 <= i < plan.bytes@.len() ==> -0x8_0000_0000 <= (#[trigger] plan.bytes@[i]).0
                    <= 0x8_0000_0000,
            Err(o) => fill_plan(
                descriptor.view(),
                Context { program: program.view(), state: state@, slots: slots@ },
                commit,
            ) == Err::<FillModel, OutcomeModel>(o.view()),
        },
{
    let ghost d = descriptor.view();
    let ghost c = Context { program: program.view(), state: state@, slots: slots@ };
    let n: i32 = match rep::begin(
        descriptor,
        program,
        state,
        slots,
        commit,
        BulkClass::Fill,
        "not Fill class",
    ) {
        Ok(n) => n,
        Err(o) => {
            return Err(o);
        },
    };
    if descriptor.pointers.len() != 1 {
        return Err(ApplyOutcome::Unsupported("Fill expects exactly one pointer"));
    }
    let p: &PointerEntry = &descriptor.pointers[0];
    assert(d.pointers[0] == p.view());
    let ptr: i32 = match program.read_prop(state, slots, p.self_property.as_str()) {
        Some(v) => v,
        None => {
            return Err(ApplyOutcome::Unsupported("pointer self_property unresolved"));
        },
    };
    let flags: i32 = match program.read_prop(state, slots, p.flag_property.as_str()) {
        Some(v) => v,
        None => {
            return Err(ApplyOutcome::Unsupported("flag_property unresolved"));
        },
    };
    if descriptor.writes.len() == 0 {
        return Err(ApplyOutcome::Unsupported("Fill expects at least one write"));
    }
    if p.base_step < 0 || descriptor.writes.len() != p.base_step as usize {
        return Err(
            ApplyOutcome::Unsupported("writes.len() != base_step (per-iter byte count mismatch)"),
        );
    }
    let bytes: Vec<(i64, u8)> = match prepare_all(&descriptor.writes, program, state, slots) {
        Ok(list) => list,
        Err(o) => {
            return Err(o);
        },
    };
    let down: bool = (flags >> p.flag_bit) & 1 != 0;
    let (lo, hi): (i64, i64) = rep::cover(ptr, n, p.base_step, down);
    if lo < 0 || hi > 0x10000 {
        return Err(ApplyOutcome::Unsupported("pointer would wrap past 16-bit segment"));
    }
    let base: i64 = bytes[0].0;
    assert(bytes_view(bytes@)[0] == (bytes@[0].0 as int, bytes@[0].1));
    assert(lo < hi) by (nonlinear_arith)
        requires
            (lo as int, hi as int) == rep::covered(ptr as int, n as int, p.base_step as int, down),
            n > 0,
            p.base_step > 0,
    ;
    if program.ranges_overlap_virtual(state, base + lo, base + hi) {
        return Err(ApplyOutcome::PerIterFallback("destination range overlaps virtual region"));
    }
    Ok(FillPlan { n, ptr, step: p.base_step, down, bytes })
}

// ---------------------------------------------------------------------------
// The effect
// ---------------------------------------------------------------------------

impl FillModel {
    /// What one iteration adds to the offset.
    pub open spec fn delta(self) -> int {
        if self.down {
            -self.step
        } else {
            self.step as int
        }
    }

    /// The offsets that the fill covers.
    pub open spec fn range(self) -> (int, int) {
        rep::covered(self.ptr as int, self.n as int, self.step as int, self.down)
    }
}

impl StateModel {
    /// The state after the first `k` writes of the iteration at offset `at`.
    pub open spec fn round(self, bytes: Seq<(int, u8)>, at: int, k: nat) -> StateModel
        decreases k,
    {
        if k == 0 {
            self
        } else {
            self.round(bytes, at, (k - 1) as nat).put(
                bytes[k - 1].0 + at + (k - 1),
                bytes[k - 1].1,
            )
        }
    }

    /// The state after `i` iterations that start at offset `ptr` and move by
    /// `delta`.
    pub open spec fn rounds(self, bytes: Seq<(int, u8)>, ptr: int, delta: int, i: nat) -> StateModel
        decreases i,
    {
        if i == 0 {
            self
        } else {
            self.rounds(bytes, ptr, delta, (i - 1) as nat).round(
                bytes,
                ptr + (i - 1) * delta,
                bytes.len(),
            )
        }
    }

    /// The state after a fill: a single byte per iteration is stored over the
    /// whole range at once, more bytes iteration by iteration.
    pub open spec fn filled(self, plan: FillModel) -> StateModel {
        if plan.bytes.len() == 1 {
            self.put_all(
                plan.bytes[0].0 + plan.range().0,
                plan.bytes[0].0 + plan.range().1,
                plan.bytes[0].1,
            )
        } else {
            self.rounds(plan.bytes, plan.ptr as int, plan.delta(), plan.n as nat)
        }
    }
}

/// Outcome and state after applying a fill.
pub open spec fn fill_result(d: LoopModel, c: Context, commit: CommitMode) -> (
    OutcomeModel,
    StateModel,
) {
    match fill_plan(d, c, commit) {
        Ok(plan) => {
            let s = c.state.filled(plan);
            (
                OutcomeModel::Applied(plan.n),
                if commit == CommitMode::Full {
                    s.committed(
                        d.pointers[0].property,
                        rep::low_word(plan.ptr + plan.n * plan.delta()),
                    ).committed(d.counter->0.property, 0).advanced(d, c.program, c.slots, plan.n)
                } else {
                    s
                },
            )
        },
        Err(o) => (o, c.state),
    }
}

/// Stores the bytes of a plan.
fn run_fill(state: &mut State, plan: &FillPlan)
    requires
        old(state).wf(),
        plan.n > 0,
        plan.step > 0,
        rep::within_segment(plan.view().range()),
        plan.bytes@.len() == plan.step,
        forall|i: int|
            0 <= i < plan.bytes@.len() ==> -0x8_0000_0000 <= (#[trigger] plan.bytes@[i]).0
                <= 0x8_0000_0000,
    ensures
        final(state).wf(),
        final(state)@ == old(state)@.filled(plan.view()),
{
    let ghost m = plan.view();
    let ghost bytes = m.bytes;
    let ghost start = state@;
    proof {
        assert(plan.n <= 0x10000 && -0x10000 <= plan.ptr <= 0x10000 && plan.step <= 0x10000)
            by (nonlinear_arith)
            requires
                rep::within_segment(
                    rep::covered(plan.ptr as int, plan.n as int, plan.step as int, plan.down),
                ),
                plan.n > 0,
                plan.step > 0,
        ;
    }
    if plan.bytes.len() == 1 {
        let (base, byte): (i64, u8) = plan.bytes[0];
        assert(bytes[0] == (base as int, byte));
        let (lo, hi): (i64, i64) = rep::cover(plan.ptr, plan.n, plan.step, plan.down);
        assert(lo <= hi) by (nonlinear_arith)
            requires
                (lo as int, hi as int) == rep::covered(
                    plan.ptr as int,
                    plan.n as int,
                    plan.step as int,
                    plan.down,
                ),
                plan.n > 0,
                plan.step > 0,
        ;
        state.bulk_fill(base + lo, (hi - lo) as u64, byte);
        return;
    }
    let delta: i64 = if plan.down {
        -(plan.step as i64)
    } else {
        plan.step as i64
    };
    let mut i: i32 = 0;
    assert(0 * m.delta() == 0);
    while i < plan.n
        invariant
            0 <= i <= plan.n <= 0x10000,
            0 < plan.step <= 0x10000,
            -0x10000 <= plan.ptr <= 0x10000,
            state.wf(),
            m == plan.view(),
            bytes == m.bytes,
            delta == m.delta(),
            plan.bytes@.len() == plan.step,
            forall|i: int|
                0 <= i < plan.bytes@.len() ==> -0x8_0000_0000 <= (#[trigger] plan.bytes@[i]).0
                    <= 0x8_0000_0000,
            state@ == start.rounds(bytes, plan.ptr as int, m.delta(), i as nat),
        decreases plan.n - i,
    {
        assert(-0x1_0000_0000 <= i * delta <= 0x1_0000_0000) by (nonlinear_arith)
            requires
                0 <= i <= 0x10000,
                -0x10000 <= delta <= 0x10000,
        ;
        let at: i64 = plan.ptr as i64 + i as i64 * delta;
        let ghost before = state@;
        let mut k: usize = 0;
        while k < plan.bytes.len()
            invariant
                k <= plan.bytes@.len() <= 0x10000,
                -0x1_0001_0000 <= at <= 0x1_0001_0000,
                state.wf(),
                bytes == bytes_view(plan.bytes@),
                forall|i: int|
                    0 <= i < plan.bytes@.len() ==> -0x8_0000_0000 <= (#[trigger] plan.bytes@[i]).0
                        <= 0x8_0000_0000,
                state@ == before.round(bytes, at as int, k as nat),
            decreases plan.bytes@.len() - k,
        {
            let (base, byte): (i64, u8) = plan.bytes[k];
            assert(bytes[k as int] == (base as int, byte));
            state.bulk_store_byte(base + at + k as i64, byte);
            k += 1;
        }
        i += 1;
    }
}

/// Applies a loop that stores the same bytes in every iteration, in memory only.
pub fn apply_fill(
    descriptor: &LoopDescriptor,
    program: &CompiledProgram,
    state: &mut State,
    slots: &[i32],
) -> (r: ApplyOutcome)
    requires
        old(state).wf(),
        program.view().fits(slots@),
        rep::bits_in_word(descriptor.view()),
    ensures
        final(state).wf(),
        (r.view(), final(state)@) == fill_result(
            descriptor.view(),
            Context { program: program.view(), state: old(state)@, slots: slots@ },
            CommitMode::MemoryOnly,
        ),
{
    apply_fill_with_commit(descriptor, program, state, slots, CommitMode::MemoryOnly)
}

/// Applies a loop that stores the same bytes in every iteration.
pub fn apply_fill_with_commit(
    descriptor: &LoopDescriptor,
    program: &CompiledProgram,
    state: &mut State,
    slots: &[i32],
    commit: CommitMode,
) -> (r: ApplyOutcome)
    requires
        old(state).wf(),
        program.view().fits(slots@),
        rep::bits_in_word(descriptor.view()),
    ensures
        final(state).wf(),
        (r.view(), final(state)@) == fill_result(
            descriptor.view(),
            Context { program: program.view(), state: old(state)@, slots: slots@ },
            commit,
        ),
{
    let ghost d = descriptor.view();
    let ghost c = Context { program: program.view(), state: state@, slots: slots@ };
    let plan: FillPlan = match plan_fill(descriptor, program, state, slots, commit) {
        Ok(plan) => plan,
        Err(o) => {
            return o;
        },
    };
    proof {
        lemma_prepared_len(d.writes, c);
        assert(plan.bytes@.len() == plan.view().bytes.len());
    }
    run_fill(state, &plan);
    if commit == CommitMode::Full {
        let step: i64 = if plan.down {
            -(plan.step as i64)
        } else {
            plan.step as i64
        };
        assert(-0x4000_0000_0000_0000 <= plan.n * step <= 0x4000_0000_0000_0000)
            by (nonlinear_arith)
            requires
                0 < plan.n <= 0x7fff_ffff,
                -0x8000_0000 <= step <= 0x7fff_ffff,
        ;
        let next: i32 = rep::take_low_word(plan.ptr as i64 + plan.n as i64 * step);
        assert(d.pointers[0] == descriptor.pointers@[0].view());
        rep::commit_pointer(state, descriptor.pointers[0].property.as_str(), next);
        if let Some(counter) = &descriptor.counter {
            rep::commit_pointer(state, counter.property.as_str(), 0);
        }
        rep::commit_ip_and_cycles(program, state, slots, descriptor, plan.n);
    }
    ApplyOutcome::Applied { iterations: plan.n }
}

} // verus!

//! Which loops can be applied at once: those whose iterations all stay within a
//! segment and clear of bytes that exist only in rules.

use crate::pattern::loop_descriptor::runtime;
use crate::pattern::loop_descriptor::{BulkClass, LoopModel, StoreModel};
use crate::pattern::rep_applier as rep;
use crate::pattern::rep_applier::copy;
use crate::pattern::rep_applier::copy::CopyShape;
use crate::pattern::rep_applier::effects;
use crate::pattern::rep_applier::fill;
use crate::pattern::rep_applier::{CommitMode, Context, OutcomeModel};
use crate::program::ProgramModel;
use crate::state::StateModel;
use crate::types::ExprModel;
use vstd::prelude::*;

verus! {

// ---------------------------------------------------------------------------
// Offsets
// ---------------------------------------------------------------------------

/// What one iteration adds to a pointer.
pub open spec fn stride(step: int, down: bool) -> int {
    if down {
        -step
    } else {
        step
    }
}

/// Does one of `n` iterations touch the offset?
pub open spec fn touched(ptr: int, n: int, step: int, down: bool, o: int) -> bool {
    exists|j: int|
        0 <= j < n && #[trigger] effects::in_iteration(ptr, stride(step, down), step, j, o)
}

/// The offsets that a pointer covers are those that one of its iterations touches.
pub proof fn law_covered_offsets_are_touched(ptr: int, n: int, step: int, down: bool, o: int)
    requires
        n > 0,
        step > 0,
    ensures
        rep::covered(ptr, n, step, down).0 <= o < rep::covered(ptr, n, step, down).1 <==> touched(
            ptr,
            n,
            step,
            down,
            o,
        ),
{
    let delta = stride(step, down);
    let (from, to) = rep::covered(ptr, n, step, down);
    if from <= o < to {
        let up = (o - from) / step;
        vstd::arithmetic::div_mod::lemma_fundamental_div_mod(o - from, step);
        assert(0 <= (o - from) % step < step) by {
            vstd::arithmetic::div_mod::lemma_mod_bound(o - from, step);
        }
        assert(to - from == n * step) by (nonlinear_arith)
            requires
                (from, to) == if down {
                    (ptr - (n - 1) * step, ptr + step)
                } else {
                    (ptr, ptr + n * step)
                },
        ;
        assert(0 <= up < n) by (nonlinear_arith)
            requires
                0 <= o - from < n * step,
                step > 0,
                o - from == step * up + (o - from) % step,
                0 <= (o - from) % step < step,
        ;
        let j = if down {
            n - 1 - up
        } else {
            up
        };
        assert(ptr + j * delta == from + step * up) by (nonlinear_arith)
            requires
                down ==> delta == -step && from == ptr - (n - 1) * step && j == n - 1 - up,
                !down ==> delta == step && from == ptr && j == up,
        ;
        assert(effects::in_iteration(ptr, delta, step, j, o));
    }
    if touched(ptr, n, step, down, o) {
        let j = choose|j: int|
            0 <= j < n && #[trigger] effects::in_iteration(ptr, delta, step, j, o);
        assert(from <= ptr + j * delta && ptr + j * delta + step <= to) by (nonlinear_arith)
            requires
                0 <= j < n,
                step > 0,
                down ==> delta == -step && from == ptr - (n - 1) * step && to == ptr + step,
                !down ==> delta == step && from == ptr && to == ptr + n * step,
        ;
    }
}

/// All offsets that the iterations touch lie within a segment of 64 KiB.
pub open spec fn all_in_segment(ptr: int, n: int, step: int, down: bool) -> bool {
    forall|o: int| #[trigger] touched(ptr, n, step, down, o) ==> 0 <= o < 0x10000
}

/// A range lies within a segment exactly if all its iterations do.
pub proof fn law_segment_holds_all_iterations(ptr: int, n: int, step: int, down: bool)
    requires
        n > 0,
        step > 0,
    ensures
        rep::within_segment(rep::covered(ptr, n, step, down)) <==> all_in_segment(
            ptr,
            n,
            step,
            down,
        ),
{
    let (from, to) = rep::covered(ptr, n, step, down);
    assert(from < to) by (nonlinear_arith)
        requires
            n > 0,
            step > 0,
            (from, to) == if down {
                (ptr - (n - 1) * step, ptr + step)
            } else {
                (ptr, ptr + n * step)
            },
    ;
    law_covered_offsets_are_touched(ptr, n, step, down, from);
    law_covered_offsets_are_touched(ptr, n, step, down, to - 1);
    assert forall|o: int| rep::within_segment((from, to)) && #[trigger] touched(
        ptr,
        n,
        step,
        down,
        o,
    ) implies 0 <= o < 0x10000 by {
        law_covered_offsets_are_touched(ptr, n, step, down, o);
    }
}

// ---------------------------------------------------------------------------
// Virtual bytes
// ---------------------------------------------------------------------------

/// Does the byte at the address exist only in the window or in the program's rules?
pub open spec fn virtual_at(p: ProgramModel, s: StateModel, addr: int) -> bool {
    ||| (s.window matches Some(w) && w.base <= addr < w.end)
    ||| exists|i: int|
        0 <= i < p.regions.len() && (#[trigger] p.regions[i]).0 <= addr < p.regions[i].1
}

/// The window and every region hold at least one address.
pub open spec fn regions_hold(p: ProgramModel, s: StateModel) -> bool {
    &&& s.window matches Some(w) ==> w.base < w.end
    &&& forall|i: int|
        0 <= i < p.regions.len() ==> (#[trigger] p.regions[i]).0 < p.regions[i].1
}

/// A range touches what is virtual exactly if one of its addresses is virtual.
pub proof fn law_virtual_ranges_share_an_address(
    p: ProgramModel,
    s: StateModel,
    from: int,
    to: int,
)
    requires
        from < to,
        regions_hold(p, s),
    ensures
        p.touches_virtual(s, from, to) <==> exists|addr: int|
            from <= addr < to && #[trigger] virtual_at(p, s, addr),
{
    if p.touches_virtual(s, from, to) {
        if s.window matches Some(w) && w.base < to && from < w.end {
            let base = s.window->0.base as int;
            let addr = if base > from {
                base
            } else {
                from
            };
            assert(virtual_at(p, s, addr));
        } else {
            let i = choose|i: int|
                0 <= i < p.regions.len() && (#[trigger] p.regions[i]).0 < to && from
                    < p.regions[i].1;
            let base = p.regions[i].0 as int;
            let addr = if base > from {
                base
            } else {
                from
            };
            assert(virtual_at(p, s, addr));
        }
    }
}

/// None of the bytes that the iterations touch behind a base is virtual.
pub open spec fn all_clear(c: Context, base: int, ptr: int, n: int, step: int, down: bool) -> bool {
    forall|o: int| #[trigger]
        touched(ptr, n, step, down, o) ==> !virtual_at(c.program, c.state, base + o)
}

proof fn lemma_all_clear(c: Context, base: int, ptr: int, n: int, step: int, down: bool)
    requires
        n > 0,
        step > 0,
        regions_hold(c.program, c.state),
    ensures
        ({
            let (from, to) = rep::covered(ptr, n, step, down);
            c.program.touches_virtual(c.state, base + from, base + to) <==> !all_clear(
                c,
                base,
                ptr,
                n,
                step,
                down,
            )
        }),
{
    let (from, to) = rep::covered(ptr, n, step, down);
    assert(from < to) by (nonlinear_arith)
        requires
            n > 0,
            step > 0,
            (from, to) == if down {
                (ptr - (n - 1) * step, ptr + step)
            } else {
                (ptr, ptr + n * step)
            },
    ;
    law_virtual_ranges_share_an_address(c.program, c.state, base + from, base + to);
    if c.program.touches_virtual(c.state, base + from, base + to) {
        let addr = choose|addr: int|
            base + from <= addr < base + to && #[trigger] virtual_at(c.program, c.state, addr);
        law_covered_offsets_are_touched(ptr, n, step, down, addr - base);
        assert(touched(ptr, n, step, down, addr - base));
        assert(virtual_at(c.program, c.state, base + (addr - base)));
    }
    if !all_clear(c, base, ptr, n, step, down) {
        let o = choose|o: int| #[trigger]
            touched(ptr, n, step, down, o) && virtual_at(c.program, c.state, base + o);
        law_covered_offsets_are_touched(ptr, n, step, down, o);
        assert(virtual_at(c.program, c.state, base + o));
    }
}

// ---------------------------------------------------------------------------
// Loops that are applied
// ---------------------------------------------------------------------------

/// What every loop needs before it is applied: its bodies are in effect, its cost and
/// its way on are known, and its counter says how many iterations are left.
pub open spec fn ready(d: LoopModel, c: Context, commit: CommitMode, n: i32) -> bool {
    &&& runtime::undisturbed(d.overrides, c.program, c.state, c.slots)
    &&& d.charge is Some
    &&& commit == CommitMode::Full ==> (d.ip_extra matches Some(slot) && c.get(slot) is Some)
    &&& d.counter matches Some(counter) && c.get(counter.property) == Some(n)
    &&& n > 0
}

/// The segment of a write and the variable that it stores are known.
pub open spec fn store_known(w: StoreModel, c: Context) -> bool {
    &&& w.parts matches Some((segment, _)) && c.get(segment) is Some
    &&& w.value matches ExprModel::Var(name, _) && c.get(name) is Some
}

proof fn lemma_stores_prepared(writes: Seq<StoreModel>, c: Context)
    requires
        forall|i: int| 0 <= i < writes.len() ==> store_known(#[trigger] writes[i], c),
    ensures
        fill::all_prepared(writes, c) is Ok,
        fill::all_prepared(writes, c)->Ok_0.len() == writes.len(),
        writes.len() > 0 ==> fill::all_prepared(writes, c)->Ok_0[0].0 == c.get(
            (writes[0].parts->0).0,
        )->0 * 16,
    decreases writes.len(),
{
    if writes.len() > 0 {
        let less = writes.drop_last();
        assert forall|i: int| 0 <= i < less.len() implies store_known(#[trigger] less[i], c) by {
            assert(less[i] == writes[i]);
        }
        lemma_stores_prepared(less, c);
        assert(store_known(writes[writes.len() - 1], c));
        if less.len() > 0 {
            assert(less[0] == writes[0]);
        }
    }
}

/// A fill whose registers are known is applied exactly if all its iterations stay
/// within the segment and clear of virtual bytes. One that leaves the segment is not
/// supported, and one that meets virtual bytes is left to single iterations.
pub proof fn law_fill_is_owed(
    d: LoopModel,
    c: Context,
    commit: CommitMode,
    n: i32,
    ptr: i32,
    flags: i32,
)
    requires
        d.class == BulkClass::Fill,
        ready(d, c, commit, n),
        regions_hold(c.program, c.state),
        d.pointers.len() == 1,
        c.get(d.pointers[0].prior) == Some(ptr),
        c.get(d.pointers[0].flag) == Some(flags),
        d.pointers[0].step > 0,
        d.writes.len() == d.pointers[0].step,
        forall|i: int| 0 <= i < d.writes.len() ==> store_known(#[trigger] d.writes[i], c),
    ensures
        ({
            let step = d.pointers[0].step as int;
            let down = rep::steps_down(flags, d.pointers[0].bit);
            let base = c.get((d.writes[0].parts->0).0)->0 * 16;
            let inside = all_in_segment(ptr as int, n as int, step, down);
            let clear = all_clear(c, base, ptr as int, n as int, step, down);
            let out = fill::fill_result(d, c, commit).0;
            &&& inside && clear ==> out == OutcomeModel::Applied(n)
            &&& inside && !clear ==> out is PerIterFallback
            &&& !inside ==> out is Unsupported
        }),
{
    let step = d.pointers[0].step as int;
    let down = rep::steps_down(flags, d.pointers[0].bit);
    lemma_stores_prepared(d.writes, c);
    let base = c.get((d.writes[0].parts->0).0)->0 * 16;
    law_segment_holds_all_iterations(ptr as int, n as int, step, down);
    lemma_all_clear(c, base, ptr as int, n as int, step, down);
}

/// A copy whose registers are known is applied exactly if all its iterations stay
/// within both segments, store to no virtual byte, and read either no virtual byte or
/// from the window alone.
pub proof fn law_copy_is_owed(
    d: LoopModel,
    c: Context,
    commit: CommitMode,
    shape: CopyShape,
    n: i32,
    flags: i32,
)
    requires
        d.class == BulkClass::Copy,
        ready(d, c, commit, n),
        regions_hold(c.program, c.state),
        copy::copy_shape(d) == Ok::<CopyShape, Seq<char>>(shape),
        c.get(shape.dst.prior) is Some,
        c.get(shape.src.prior) is Some,
        c.get(shape.dst_segment) is Some,
        c.get(shape.src_segment) is Some,
        c.get(shape.dst.flag) == Some(flags),
        shape.dst.step > 0,
    ensures
        ({
            let step = shape.dst.step as int;
            let down = rep::steps_down(flags, shape.dst.bit);
            let to = c.get(shape.dst.prior)->0 as int;
            let from = c.get(shape.src.prior)->0 as int;
            let to_base = c.get(shape.dst_segment)->0 * 16;
            let from_base = c.get(shape.src_segment)->0 * if shape.src_scaled {
                16int
            } else {
                1
            };
            let inside = all_in_segment(to, n as int, step, down) && all_in_segment(
                from,
                n as int,
                step,
                down,
            );
            let seen = c.state.window matches Some(w) && forall|o: int| #[trigger]
                touched(from, n as int, step, down, o) ==> w.base <= from_base + o < w.end;
            let clear = all_clear(c, to_base, to, n as int, step, down) && (seen || all_clear(
                c,
                from_base,
                from,
                n as int,
                step,
                down,
            ));
            let out = copy::copy_result(d, c, commit).0;
            &&& inside && clear ==> out == OutcomeModel::Applied(n)
            &&& inside && !clear ==> out is PerIterFallback
            &&& !inside ==> out is Unsupported
        }),
{
    let step = shape.dst.step as int;
    let down = rep::steps_down(flags, shape.dst.bit);
    let to = c.get(shape.dst.prior)->0 as int;
    let from = c.get(shape.src.prior)->0 as int;
    let to_base = c.get(shape.dst_segment)->0 * 16;
    let from_base = if shape.src_scaled {
        c.get(shape.src_segment)->0 * 16
    } else {
        c.get(shape.src_segment)->0 as int
    };
    law_segment_holds_all_iterations(to, n as int, step, down);
    law_segment_holds_all_iterations(from, n as int, step, down);
    lemma_all_clear(c, to_base, to, n as int, step, down);
    lemma_all_clear(c, from_base, from, n as int, step, down);
    let (first, end) = rep::covered(from, n as int, step, down);
    assert(first < end) by (nonlinear_arith)
        requires
            n > 0,
            step > 0,
            (first, end) == if down {
                (from - (n - 1) * step, from + step)
            } else {
                (from, from + n * step)
            },
    ;
    law_covered_offsets_are_touched(from, n as int, step, down, first);
    law_covered_offsets_are_touched(from, n as int, step, down, end - 1);
    if copy::window_holds(c.state.window, from_base + first, from_base + end) {
        let w = c.state.window->0;
        assert forall|o: int| #[trigger] touched(from, n as int, step, down, o) implies w.base
            <= from_base + o < w.end by {
            law_covered_offsets_are_touched(from, n as int, step, down, o);
        }
    }
}

} // verus!

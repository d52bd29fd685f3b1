//! What the registers hold after all iterations of a loop.

use crate::names;
use crate::pattern::loop_descriptor::{LoopModel, PointerModel, SourceModel, StoreModel};
use crate::pattern::rep_applier as rep;
use crate::pattern::rep_applier::copy;
use crate::pattern::rep_applier::copy::CopyModel;
use crate::pattern::rep_applier::fill;
use crate::pattern::rep_applier::fill::FillModel;
use crate::pattern::rep_applier::read_only;
use crate::pattern::rep_applier::read_only::{CompareModel, OperandModel};
use crate::pattern::rep_applier::{CommitMode, Context, OutcomeModel};
use crate::program::ProgramModel;
use crate::state;
use crate::state::StateModel;
use vstd::prelude::*;

verus! {

// ---------------------------------------------------------------------------
// Registers
// ---------------------------------------------------------------------------

/// What the variable of a property holds.
pub open spec fn register(s: StateModel, property: Seq<char>) -> Option<i32> {
    s.var(names::canonical(property))
}

/// Is `x` the low 16 bits of `of`?
pub open spec fn is_low_word(x: int, of: int) -> bool {
    0 <= x < 0x10000 && (of - x) % 0x10000 == 0
}

/// How far one iteration moves a pointer: by its step, downward while its direction
/// bit is set.
pub open spec fn moves_by(p: PointerModel, flags: i32) -> int {
    if (flags >> p.bit) & 1 != 0 {
        -p.step
    } else {
        p.step as int
    }
}

/// The registers of a loop are variables of their own.
pub open spec fn apart(d: LoopModel) -> bool {
    &&& d.counter is Some
    &&& d.charge is Some
    &&& forall|i: int, j: int|
        0 <= i < j < d.pointers.len() ==> names::canonical((#[trigger] d.pointers[i]).property)
            != names::canonical((#[trigger] d.pointers[j]).property)
    &&& forall|i: int|
        0 <= i < d.pointers.len() ==> {
            let x = names::canonical((#[trigger] d.pointers[i]).property);
            &&& x != names::canonical(d.counter->0.property)
            &&& x != names::canonical(d.ip)
            &&& x != names::canonical(d.charge->0.property)
        }
    &&& names::canonical(d.counter->0.property) != names::canonical(d.ip)
    &&& names::canonical(d.counter->0.property) != names::canonical(d.charge->0.property)
    &&& names::canonical(d.ip) != names::canonical(d.charge->0.property)
}

/// Is a name that of none of the loop's registers?
pub open spec fn no_register(d: LoopModel, name: Seq<char>) -> bool {
    &&& forall|i: int|
        0 <= i < d.pointers.len() ==> name != names::canonical((#[trigger] d.pointers[i]).property)
    &&& name != names::canonical(d.counter->0.property)
    &&& name != names::canonical(d.ip)
    &&& name != names::canonical(d.charge->0.property)
}

proof fn lemma_last_index(list: Seq<Seq<char>>, name: Seq<char>)
    ensures
        state::last_index(list, name) matches Some(i) ==> 0 <= i < list.len() && list[i] == name,
    decreases list.len(),
{
    if list.len() > 0 {
        lemma_last_index(list.drop_last(), name);
    }
}

/// Storing one variable leaves the others.
pub proof fn lemma_committed(s: StateModel, property: Seq<char>, value: i32)
    requires
        s.names.len() == s.vars.len(),
    ensures
        s.committed(property, value).names == s.names,
        s.committed(property, value).vars.len() == s.vars.len(),
        register(s, property) is Some ==> register(s.committed(property, value), property) == Some(
            value,
        ),
        register(s, property) is None ==> register(s.committed(property, value), property) is None,
        forall|other: Seq<char>|
            other != names::canonical(property) ==> #[trigger] s.committed(property, value).var(
                other,
            ) == s.var(other),
{
    let name = names::canonical(property);
    let after = s.committed(property, value);
    lemma_last_index(s.names, name);
    assert forall|other: Seq<char>| other != name implies #[trigger] after.var(other) == s.var(
        other,
    ) by {
        lemma_last_index(s.names, other);
    }
}

/// What the end of a loop leaves in the instruction pointer and the cost counter.
proof fn lemma_advanced(s: StateModel, d: LoopModel, p: ProgramModel, slots: Seq<i32>, iters: i32)
    requires
        s.names.len() == s.vars.len(),
        d.charge is Some,
        names::canonical(d.ip) != names::canonical(d.charge->0.property),
    ensures
        ({
            let after = s.advanced(d, p, slots, iters);
            let extra = match d.ip_extra {
                Some(slot) => p.property_or_zero(s, slots, slot),
                None => 0,
            };
            &&& after.names == s.names
            &&& after.vars.len() == s.vars.len()
            &&& register(s, d.ip) matches Some(ip) ==> register(after, d.ip) == Some(
                rep::low_word(ip + d.ip_advance + extra),
            )
            &&& register(s, d.charge->0.property) matches Some(cost) ==> register(
                after,
                d.charge->0.property,
            ) == Some(cost.wrapping_add(iters.wrapping_mul(d.charge->0.per_iter)))
            &&& forall|other: Seq<char>|
                other != names::canonical(d.ip) && other != names::canonical(
                    d.charge->0.property,
                ) ==> #[trigger] after.var(other) == s.var(other)
        }),
{
    let ip = match s.var(names::canonical(d.ip)) {
        Some(v) => v,
        None => 0,
    };
    let extra = match d.ip_extra {
        Some(slot) => p.property_or_zero(s, slots, slot),
        None => 0,
    };
    let value = rep::low_word(ip + d.ip_advance + extra);
    lemma_committed(s, d.ip, value);
    let moved = s.committed(d.ip, value);
    let charge = d.charge->0;
    assert(moved.var(names::canonical(charge.property)) == s.var(
        names::canonical(charge.property),
    ));
    if let Some(cost) = moved.var(names::canonical(charge.property)) {
        let sum = cost.wrapping_add(iters.wrapping_mul(charge.per_iter));
        lemma_committed(moved, charge.property, sum);
        let after = moved.committed(charge.property, sum);
        assert(after.var(names::canonical(d.ip)) == moved.var(names::canonical(d.ip)));
        assert forall|other: Seq<char>|
            other != names::canonical(d.ip) && other != names::canonical(
                charge.property,
            ) implies #[trigger] after.var(other) == s.var(other) by {
            assert(moved.var(other) == s.var(other));
        }
    }
}

proof fn lemma_low_word(x: int)
    ensures
        is_low_word(rep::low_word(x) as int, x),
{
    vstd::arithmetic::div_mod::lemma_fundamental_div_mod(x, 0x10000);
    assert(x - x % 0x10000 == 0x10000 * (x / 0x10000));
}

// ---------------------------------------------------------------------------
// Moving bytes keeps the variables
// ---------------------------------------------------------------------------

/// The same variables, by name; the values of those that pack bytes may differ.
spec fn same_names(a: StateModel, b: StateModel) -> bool {
    &&& a.names == b.names
    &&& a.vars.len() == b.vars.len()
    &&& a.pack == b.pack
    &&& a.pack == 0 ==> a.vars == b.vars
}

proof fn lemma_moved_round(s: StateModel, src: int, dst: int, k: nat)
    ensures
        same_names(s, s.moved_round(src, dst, k)),
    decreases k,
{
    if k > 0 {
        lemma_moved_round(s, src, dst, (k - 1) as nat);
    }
}

proof fn lemma_moved_rounds(s: StateModel, src: int, dst: int, step: nat, delta: int, i: nat)
    ensures
        same_names(s, s.moved_rounds(src, dst, step, delta, i)),
    decreases i,
{
    if i > 0 {
        lemma_moved_rounds(s, src, dst, step, delta, (i - 1) as nat);
        lemma_moved_round(
            s.moved_rounds(src, dst, step, delta, (i - 1) as nat),
            src + (i - 1) * delta,
            dst + (i - 1) * delta,
            step,
        );
    }
}

proof fn lemma_put_all(s: StateModel, from: int, to: int, byte: u8)
    ensures
        same_names(s, s.put_all(from, to, byte)),
    decreases to - from,
{
    if from < to {
        lemma_put_all(s.put(from, byte), from + 1, to, byte);
    }
}

proof fn lemma_round(s: StateModel, bytes: Seq<(int, u8)>, at: int, k: nat)
    ensures
        same_names(s, s.round(bytes, at, k)),
    decreases k,
{
    if k > 0 {
        lemma_round(s, bytes, at, (k - 1) as nat);
    }
}

proof fn lemma_rounds(s: StateModel, bytes: Seq<(int, u8)>, ptr: int, delta: int, i: nat)
    ensures
        same_names(s, s.rounds(bytes, ptr, delta, i)),
    decreases i,
{
    if i > 0 {
        lemma_rounds(s, bytes, ptr, delta, (i - 1) as nat);
        lemma_round(
            s.rounds(bytes, ptr, delta, (i - 1) as nat),
            bytes,
            ptr + (i - 1) * delta,
            bytes.len(),
        );
    }
}

proof fn lemma_filled(s: StateModel, plan: FillModel)
    ensures
        same_names(s, s.filled(plan)),
{
    if plan.bytes.len() == 1 {
        lemma_put_all(
            s,
            plan.bytes[0].0 + plan.range().0,
            plan.bytes[0].0 + plan.range().1,
            plan.bytes[0].1,
        );
    } else {
        lemma_rounds(s, plan.bytes, plan.ptr as int, plan.delta(), plan.n as nat);
    }
}

proof fn lemma_copied(s: StateModel, plan: CopyModel)
    ensures
        same_names(s, s.copied(plan)),
{
    lemma_moved_rounds(
        s,
        plan.src_base + plan.src_ptr,
        plan.dst_base + plan.dst_ptr,
        plan.step as nat,
        plan.delta(),
        plan.n as nat,
    );
}

// ---------------------------------------------------------------------------
// The end of a loop
// ---------------------------------------------------------------------------

/// Does the value of a property not depend on the loop's registers?
pub open spec fn steady(d: LoopModel, p: ProgramModel, name: Seq<char>) -> bool {
    no_register(d, names::canonical(name)) || (!names::buffer_copy(name) && p.slots.contains_key(
        name,
    ))
}

/// What a loop of `n` iterations leaves in its counter, the instruction pointer and
/// the cost counter, when `before` is what moving its bytes alone leaves: the counter
/// holds `left`, the instruction pointer stands behind the instruction and its
/// prefixes, and every iteration was charged.
pub open spec fn ended(
    d: LoopModel,
    c: Context,
    before: StateModel,
    after: StateModel,
    n: int,
    left: int,
) -> bool {
    let extra = (Context { state: before, ..c }).get_or_zero(d.ip_extra->0);
    &&& register(before, d.counter->0.property) is Some ==> (register(
        after,
        d.counter->0.property,
    ) matches Some(x) && x == left)
    &&& register(before, d.ip) matches Some(ip) ==> (register(after, d.ip) matches Some(x)
        && is_low_word(x as int, ip + d.ip_advance + extra))
    &&& register(before, d.charge->0.property) matches Some(cost) ==> {
        let total = cost + n * d.charge->0.per_iter;
        i32::MIN <= n * d.charge->0.per_iter <= i32::MAX && i32::MIN <= total <= i32::MAX ==> (
        register(after, d.charge->0.property) matches Some(x) && x == total)
    }
}

/// Variables that are no registers stay as they are.
pub open spec fn others_stay(d: LoopModel, before: StateModel, after: StateModel) -> bool {
    forall|name: Seq<char>|
        no_register(d, name) ==> #[trigger] after.var(name) == before.var(name)
}

/// The registers of pointers, counter, instruction pointer and cost, stored one
/// after the other.
proof fn lemma_ended(
    d: LoopModel,
    c: Context,
    before: StateModel,
    moved: StateModel,
    after: StateModel,
    n: i32,
    left: i32,
)
    requires
        apart(d),
        d.ip_extra matches Some(slot) && steady(d, c.program, slot),
        before.names.len() == before.vars.len(),
        moved.names == before.names,
        moved.vars.len() == before.vars.len(),
        moved.var(names::canonical(d.counter->0.property)) == before.var(
            names::canonical(d.counter->0.property),
        ),
        moved.var(names::canonical(d.ip)) == before.var(names::canonical(d.ip)),
        moved.var(names::canonical(d.charge->0.property)) == before.var(
            names::canonical(d.charge->0.property),
        ),
        others_stay(d, before, moved),
        after == moved.committed(d.counter->0.property, left).advanced(d, c.program, c.slots, n),
    ensures
        ended(d, c, before, after, n as int, left as int),
        others_stay(d, before, after),
        forall|i: int|
            0 <= i < d.pointers.len() ==> register(after, (#[trigger] d.pointers[i]).property)
                == register(moved, d.pointers[i].property),
        after.names == before.names,
        after.vars.len() == before.vars.len(),
{
    let counter = d.counter->0.property;
    let charge = d.charge->0.property;
    lemma_committed(moved, counter, left);
    let counted = moved.committed(counter, left);
    lemma_advanced(counted, d, c.program, c.slots, n);
    let slot = d.ip_extra->0;
    let name = names::canonical(slot);
    if no_register(d, name) {
        assert(moved.var(name) == before.var(name));
        assert(counted.var(name) == moved.var(name));
    }
    assert(c.program.property_or_zero(counted, c.slots, slot) == (Context {
        state: before,
        ..c
    }).get_or_zero(slot));
    assert(counted.var(names::canonical(d.ip)) == moved.var(names::canonical(d.ip)));
    assert(counted.var(names::canonical(charge)) == moved.var(names::canonical(charge)));
    if let Some(ip) = register(before, d.ip) {
        lemma_low_word(
            ip + d.ip_advance + (Context { state: before, ..c }).get_or_zero(slot),
        );
    }
    assert(after.var(names::canonical(counter)) == counted.var(names::canonical(counter)));
    assert forall|other: Seq<char>| no_register(d, other) implies #[trigger] after.var(other)
        == before.var(other) by {
        assert(counted.var(other) == moved.var(other));
        assert(moved.var(other) == before.var(other));
    }
    assert forall|i: int| 0 <= i < d.pointers.len() implies register(
        after,
        (#[trigger] d.pointers[i]).property,
    ) == register(moved, d.pointers[i].property) by {
        let x = names::canonical(d.pointers[i].property);
        assert(counted.var(x) == moved.var(x));
        assert(after.var(x) == counted.var(x));
    }
}

// ---------------------------------------------------------------------------
// Copies
// ---------------------------------------------------------------------------

/// After a copy with all registers stored, both pointers hold what `n` single
/// iterations would leave: each has moved by as many bytes as were copied, `n` times
/// the writes of one iteration, down while its direction bit is set and up
/// otherwise, within 16 bits. The counter is used up, the instruction pointer stands
/// behind the loop, every iteration was charged, and no other variable changed.
pub proof fn law_copy_leaves_registers(d: LoopModel, c: Context, n: i32, i: int)
    requires
        copy::copy_result(d, c, CommitMode::Full).0 == OutcomeModel::Applied(n),
        n > 0,
        apart(d),
        d.ip_extra matches Some(slot) && steady(d, c.program, slot),
        c.state.names.len() == c.state.vars.len(),
        0 <= i < d.pointers.len(),
        register(c.state, d.pointers[i].property) is Some,
    ensures
        ({
            let after = copy::copy_result(d, c, CommitMode::Full).1;
            let before = copy::copy_result(d, c, CommitMode::MemoryOnly).1;
            let p = d.pointers[i];
            &&& copy::copy_result(d, c, CommitMode::MemoryOnly).0 == OutcomeModel::Applied(n)
            &&& c.get(d.counter->0.property) == Some(n)
            &&& d.writes.len() == p.step
            &&& c.get(p.prior) matches Some(at)
            &&& c.get(p.flag) matches Some(flags)
            &&& register(after, p.property) matches Some(x)
            &&& is_low_word(x as int, at + n * moves_by(p, flags))
            &&& ended(d, c, before, after, n as int, 0)
            &&& others_stay(d, before, after)
            &&& c.state.pack == 0 ==> before.vars == c.state.vars
        }),
{
    let plan = copy::copy_plan(d, c, CommitMode::Full)->Ok_0;
    let shape = copy::copy_shape(d)->Ok_0;
    let before = c.state.copied(plan);
    lemma_copied(c.state, plan);
    let (a, b) = (d.pointers[0], d.pointers[1]);
    reveal_with_fuel(rep::pointer_named, 3);
    assert(d.pointers.drop_last().drop_last() =~= Seq::empty());
    assert(d.pointers.drop_last().last() == a);
    assert((shape.dst == a && shape.src == b) || (shape.dst == b && shape.src == a));
    let x = rep::low_word(plan.dst_ptr + plan.n * plan.delta());
    let y = rep::low_word(plan.src_ptr + plan.n * plan.delta());
    lemma_low_word(plan.dst_ptr + plan.n * plan.delta());
    lemma_low_word(plan.src_ptr + plan.n * plan.delta());
    lemma_committed(before, shape.dst.property, x);
    let half = before.committed(shape.dst.property, x);
    lemma_committed(half, shape.src.property, y);
    let moved = half.committed(shape.src.property, y);
    let after = copy::copy_result(d, c, CommitMode::Full).1;
    assert(names::canonical(a.property) != names::canonical(b.property));
    assert(half.var(names::canonical(shape.src.property)) == before.var(
        names::canonical(shape.src.property),
    ));
    assert(moved.var(names::canonical(shape.dst.property)) == half.var(
        names::canonical(shape.dst.property),
    ));
    assert forall|name: Seq<char>|
        name != names::canonical(a.property) && name != names::canonical(
            b.property,
        ) implies #[trigger] moved.var(name) == before.var(name) by {
        assert(half.var(name) == before.var(name));
    }
    assert(others_stay(d, before, moved)) by {
        assert forall|name: Seq<char>| no_register(d, name) implies #[trigger] moved.var(name)
            == before.var(name) by {
            assert(name != names::canonical(d.pointers[0].property));
            assert(name != names::canonical(d.pointers[1].property));
        }
    }
    lemma_ended(d, c, before, moved, after, n, 0);
    assert(before.var(names::canonical(d.pointers[i].property)) is Some);
    assert(register(after, d.pointers[i].property) == register(moved, d.pointers[i].property));
}

// ---------------------------------------------------------------------------
// Fills
// ---------------------------------------------------------------------------

proof fn lemma_prepared_or_unsupported(writes: Seq<StoreModel>, c: Context)
    ensures
        fill::all_prepared(writes, c) matches Err(o) ==> o is Unsupported,
    decreases writes.len(),
{
    if writes.len() > 0 {
        lemma_prepared_or_unsupported(writes.drop_last(), c);
    }
}

/// After a fill with all registers stored, the pointer has moved by as many bytes as
/// were stored, `n` times the writes of one iteration, in the direction of its bit
/// and within 16 bits; the other registers are those of a loop that has ended.
pub proof fn law_fill_leaves_registers(d: LoopModel, c: Context, n: i32)
    requires
        fill::fill_result(d, c, CommitMode::Full).0 == OutcomeModel::Applied(n),
        n > 0,
        apart(d),
        d.ip_extra matches Some(slot) && steady(d, c.program, slot),
        c.state.names.len() == c.state.vars.len(),
        register(c.state, d.pointers[0].property) is Some,
    ensures
        ({
            let after = fill::fill_result(d, c, CommitMode::Full).1;
            let before = fill::fill_result(d, c, CommitMode::MemoryOnly).1;
            let p = d.pointers[0];
            &&& fill::fill_result(d, c, CommitMode::MemoryOnly).0 == OutcomeModel::Applied(n)
            &&& c.get(d.counter->0.property) == Some(n)
            &&& d.pointers.len() == 1
            &&& d.writes.len() == p.step
            &&& c.get(p.prior) matches Some(at)
            &&& c.get(p.flag) matches Some(flags)
            &&& register(after, p.property) matches Some(x)
            &&& is_low_word(x as int, at + n * moves_by(p, flags))
            &&& ended(d, c, before, after, n as int, 0)
            &&& others_stay(d, before, after)
        }),
{
    lemma_prepared_or_unsupported(d.writes, c);
    let plan = fill::fill_plan(d, c, CommitMode::Full)->Ok_0;
    let before = c.state.filled(plan);
    lemma_filled(c.state, plan);
    let p = d.pointers[0];
    let x = rep::low_word(plan.ptr + plan.n * plan.delta());
    lemma_low_word(plan.ptr + plan.n * plan.delta());
    lemma_committed(before, p.property, x);
    let moved = before.committed(p.property, x);
    let after = fill::fill_result(d, c, CommitMode::Full).1;
    assert(others_stay(d, before, moved)) by {
        assert forall|name: Seq<char>| no_register(d, name) implies #[trigger] moved.var(name)
            == before.var(name) by {
            assert(name != names::canonical(d.pointers[0].property));
        }
    }
    lemma_ended(d, c, before, moved, after, n, 0);
    assert(before.var(names::canonical(p.property)) is Some);
    assert(register(after, d.pointers[0].property) == register(moved, d.pointers[0].property));
}

// ---------------------------------------------------------------------------
// Comparisons
// ---------------------------------------------------------------------------

/// The pointers of a run have moved once per iteration.
proof fn lemma_run_moves(m: CompareModel, s: StateModel, dst: int, src: int, left: int)
    requires
        left >= 1,
    ensures
        ({
            let run = m.run(s, dst, src, left);
            &&& 1 <= run.iters <= left
            &&& run.dst_ptr == (dst + run.iters * m.delta) % 0x10000
            &&& m.operand is Memory ==> run.src_ptr == (src + run.iters * m.delta) % 0x10000
            &&& (StateModel { read_log: s.read_log, ..run.state }) == s
        }),
    decreases left,
{
    let first = m.step(s, dst, src);
    assert(1 * m.delta == m.delta);
    if left > 1 && !m.ends(first.last_dst, first.last_src) {
        lemma_run_moves(m, first.state, first.dst_ptr, first.src_ptr, left - 1);
        let rest = m.run(first.state, first.dst_ptr, first.src_ptr, left - 1);
        let k = rest.iters;
        assert((k + 1) * m.delta == m.delta + k * m.delta) by (nonlinear_arith);
        lemma_moves_again(dst, m.delta, k * m.delta);
        lemma_moves_again(src, m.delta, k * m.delta);
    }
}

pub proof fn lemma_moves_again(x: int, a: int, b: int)
    ensures
        ((x + a) % 0x10000 + b) % 0x10000 == (x + (a + b)) % 0x10000,
{
    vstd::arithmetic::div_mod::lemma_add_mod_noop((x + a), b, 0x10000);
    vstd::arithmetic::div_mod::lemma_add_mod_noop((x + a) % 0x10000, b, 0x10000);
    vstd::arithmetic::div_mod::lemma_mod_twice(x + a, 0x10000);
}

/// The pointers that a comparing loop walks: the destination of its comparison, and
/// the source if that is memory.
pub open spec fn walks(d: LoopModel, i: int) -> bool {
    d.comparison matches Some(shape) && 0 <= i < d.pointers.len() && (d.pointers[i].prior
        == shape.pointer || (shape.source matches SourceModel::Pointer { pointer, .. }
        && d.pointers[i].prior == pointer)) && forall|j: int|
        0 <= j < i ==> (#[trigger] d.pointers[j]).prior != d.pointers[i].prior
}

/// As [`lemma_ended`], for a loop that stores a flag word too.
pub proof fn lemma_ended_with_flags(
    d: LoopModel,
    c: Context,
    moved: StateModel,
    after: StateModel,
    flag: Seq<char>,
    flags: i32,
    n: i32,
    left: i32,
)
    requires
        apart(d),
        d.ip_extra matches Some(slot) && steady(d, c.program, slot) && (names::canonical(slot)
            != names::canonical(flag) || (!names::buffer_copy(slot)
            && c.program.slots.contains_key(slot))),
        no_register(d, names::canonical(flag)),
        c.state.names.len() == c.state.vars.len(),
        moved.names == c.state.names,
        moved.vars.len() == c.state.vars.len(),
        moved.var(names::canonical(d.counter->0.property)) == c.state.var(
            names::canonical(d.counter->0.property),
        ),
        moved.var(names::canonical(d.ip)) == c.state.var(names::canonical(d.ip)),
        moved.var(names::canonical(d.charge->0.property)) == c.state.var(
            names::canonical(d.charge->0.property),
        ),
        others_stay(d, c.state, moved),
        after == moved.committed(d.counter->0.property, left).committed(flag, flags).advanced(
            d,
            c.program,
            c.slots,
            n,
        ),
    ensures
        ended(d, c, c.state, after, n as int, left as int),
        register(c.state, flag) is Some ==> register(after, flag) == Some(flags),
        forall|name: Seq<char>|
            no_register(d, name) && name != names::canonical(flag) ==> #[trigger] after.var(name)
                == c.state.var(name),
        forall|i: int|
            0 <= i < d.pointers.len() ==> register(after, (#[trigger] d.pointers[i]).property)
                == register(moved, d.pointers[i].property),
{
    let counter = d.counter->0.property;
    let charge = d.charge->0.property;
    let word = names::canonical(flag);
    lemma_committed(moved, counter, left);
    let counted = moved.committed(counter, left);
    lemma_committed(counted, flag, flags);
    let flagged = counted.committed(flag, flags);
    lemma_advanced(flagged, d, c.program, c.slots, n);
    let slot = d.ip_extra->0;
    let name = names::canonical(slot);
    if no_register(d, name) && name != word {
        assert(moved.var(name) == c.state.var(name));
        assert(counted.var(name) == moved.var(name));
        assert(flagged.var(name) == counted.var(name));
    }
    assert(c.program.property_or_zero(flagged, c.slots, slot) == c.get_or_zero(slot));
    assert(counted.var(names::canonical(d.ip)) == moved.var(names::canonical(d.ip)));
    assert(flagged.var(names::canonical(d.ip)) == counted.var(names::canonical(d.ip)));
    assert(counted.var(names::canonical(charge)) == moved.var(names::canonical(charge)));
    assert(flagged.var(names::canonical(charge)) == counted.var(names::canonical(charge)));
    assert(flagged.var(names::canonical(counter)) == counted.var(names::canonical(counter)));
    assert(after.var(names::canonical(counter)) == flagged.var(names::canonical(counter)));
    assert(moved.var(word) == c.state.var(word));
    assert(counted.var(word) == moved.var(word));
    assert(after.var(word) == flagged.var(word));
    if let Some(ip) = register(c.state, d.ip) {
        lemma_low_word(ip + d.ip_advance + c.get_or_zero(slot));
    }
    assert((Context { state: c.state, ..c }).get_or_zero(slot) == c.get_or_zero(slot));
    assert forall|other: Seq<char>|
        no_register(d, other) && other != word implies #[trigger] after.var(other)
        == c.state.var(other) by {
        assert(moved.var(other) == c.state.var(other));
        assert(counted.var(other) == moved.var(other));
        assert(flagged.var(other) == counted.var(other));
    }
    assert forall|i: int| 0 <= i < d.pointers.len() implies register(
        after,
        (#[trigger] d.pointers[i]).property,
    ) == register(moved, d.pointers[i].property) by {
        let x = names::canonical(d.pointers[i].property);
        assert(x != word);
        assert(counted.var(x) == moved.var(x));
        assert(flagged.var(x) == counted.var(x));
        assert(after.var(x) == flagged.var(x));
    }
}

/// What a comparing loop leaves in the variables of its pointers.
pub proof fn lemma_walked(d: LoopModel, c: Context, plan: CompareModel, i: int)
    requires
        read_only::read_only_plan(d, c, CommitMode::Full) == Ok::<CompareModel, OutcomeModel>(plan),
        apart(d),
        c.state.names.len() == c.state.vars.len(),
        walks(d, i),
        register(c.state, d.pointers[i].property) is Some,
    ensures
        ({
            let shape = d.comparison->0;
            let dst = read_only::destination(d, shape)->0;
            let run = plan.whole_run(c.state);
            let half = run.state.committed(dst.property, run.dst_ptr as i32);
            let moved = match read_only::origin(d, shape) {
                Some(src) => half.committed(src.property, run.src_ptr as i32),
                None => half,
            };
            let p = d.pointers[i];
            &&& 1 <= run.iters <= plan.n
            &&& c.get(d.counter->0.property) == Some(plan.n)
            &&& dst.flag == p.flag
            &&& c.get(p.prior) matches Some(at)
            &&& c.get(p.flag) matches Some(flags)
            &&& register(moved, p.property) matches Some(x)
            &&& is_low_word(x as int, at + run.iters * moves_by(p, flags))
            &&& moved.names == c.state.names
            &&& moved.vars.len() == c.state.vars.len()
            &&& moved.var(names::canonical(d.counter->0.property)) == c.state.var(
                names::canonical(d.counter->0.property),
            )
            &&& moved.var(names::canonical(d.ip)) == c.state.var(names::canonical(d.ip))
            &&& moved.var(names::canonical(d.charge->0.property)) == c.state.var(
                names::canonical(d.charge->0.property),
            )
            &&& others_stay(d, c.state, moved)
        }),
{
    let shape = d.comparison->0;
    let dst = read_only::destination(d, shape)->0;
    let src_ptr = match plan.operand {
        OperandModel::Memory { ptr, .. } => ptr,
        OperandModel::Register(_) => 0,
    };
    lemma_run_moves(plan, c.state, plan.dst_ptr, src_ptr, plan.n as int);
    let run = plan.whole_run(c.state);
    let p = d.pointers[i];
    lemma_first_pointer(d.pointers, i);
    lemma_named(d.pointers, shape.pointer);
    let a = choose|a: int|
        0 <= a < d.pointers.len() && (#[trigger] d.pointers[a]) == dst && dst.prior == shape.pointer
            && forall|j: int|
            0 <= j < a ==> (#[trigger] d.pointers[j]).prior != shape.pointer;
    assert(d.pointers[a] == dst);
    lemma_committed(run.state, dst.property, run.dst_ptr as i32);
    let half = run.state.committed(dst.property, run.dst_ptr as i32);
    let moved = match read_only::origin(d, shape) {
        Some(src) => half.committed(src.property, run.src_ptr as i32),
        None => half,
    };
    assert(run.state.vars == c.state.vars && run.state.names == c.state.names);
    let at = c.get(p.prior)->0;
    let k = run.iters;
    lemma_offset(at as int, k * plan.delta);
    if let Some(src) = read_only::origin(d, shape) {
        lemma_named(d.pointers, src.prior);
        lemma_named(d.pointers, shape.source->Pointer_pointer);
        let b = choose|b: int|
            0 <= b < d.pointers.len() && (#[trigger] d.pointers[b]) == src && src.prior
                == shape.source->Pointer_pointer && forall|j: int|
                0 <= j < b ==> (#[trigger] d.pointers[j]).prior != shape.source->Pointer_pointer;
        assert(d.pointers[b] == src);
        assert(a != b);
        assert(names::canonical(dst.property) != names::canonical(src.property)) by {
            if a < b {
                assert(names::canonical(d.pointers[a].property) != names::canonical(
                    d.pointers[b].property,
                ));
            } else {
                assert(names::canonical(d.pointers[b].property) != names::canonical(
                    d.pointers[a].property,
                ));
            }
        }
        lemma_committed(half, src.property, run.src_ptr as i32);
        assert(moved.var(names::canonical(dst.property)) == half.var(
            names::canonical(dst.property),
        ));
        assert(half.var(names::canonical(src.property)) == run.state.var(
            names::canonical(src.property),
        ));
        assert(p == dst || p == src);
        assert forall|name: Seq<char>|
            name != names::canonical(dst.property) && name != names::canonical(
                src.property,
            ) implies #[trigger] moved.var(name) == c.state.var(name) by {
            assert(half.var(name) == run.state.var(name));
        }
        assert forall|name: Seq<char>| no_register(d, name) implies #[trigger] moved.var(name)
            == c.state.var(name) by {
            assert(name != names::canonical(d.pointers[a].property));
            assert(name != names::canonical(d.pointers[b].property));
        }
    } else {
        assert(p == dst);
        assert forall|name: Seq<char>| no_register(d, name) implies #[trigger] moved.var(name)
            == c.state.var(name) by {
            assert(name != names::canonical(d.pointers[a].property));
        }
    }
    assert(plan.delta == moves_by(p, c.get(p.flag)->0));
}

proof fn lemma_offset(at: int, moved: int)
    ensures
        is_low_word((at % 0x10000 + moved) % 0x10000, at + moved),
{
    vstd::arithmetic::div_mod::lemma_add_mod_noop(at, moved, 0x10000);
    lemma_moves_again(at, 0, moved);
    vstd::arithmetic::div_mod::lemma_fundamental_div_mod(at + moved, 0x10000);
    assert(at + moved - (at + moved) % 0x10000 == 0x10000 * ((at + moved) / 0x10000));
}

/// After a comparing loop with all registers stored that made `k` iterations, the
/// counter is less by `k`, every pointer that was walked has moved `k` times, in the
/// direction of its bit and within 16 bits, and the instruction pointer and the cost
/// are those of a loop that has ended after `k` iterations.
pub proof fn law_comparison_leaves_registers(d: LoopModel, c: Context, k: i32, i: int)
    requires
        read_only::read_only_result(d, c, CommitMode::Full).0 == OutcomeModel::Applied(k),
        k > 0,
        apart(d),
        c.state.names.len() == c.state.vars.len(),
        walks(d, i),
        register(c.state, d.pointers[i].property) is Some,
        no_register(d, names::canonical(d.pointers[i].flag)),
        d.ip_extra matches Some(slot) && steady(d, c.program, slot) && (names::canonical(slot)
            != names::canonical(d.pointers[i].flag) || (!names::buffer_copy(slot)
            && c.program.slots.contains_key(slot))),
    ensures
        ({
            let after = read_only::read_only_result(d, c, CommitMode::Full).1;
            let p = d.pointers[i];
            &&& c.get(d.counter->0.property) matches Some(n)
            &&& 1 <= k <= n
            &&& c.get(p.prior) matches Some(at)
            &&& c.get(p.flag) matches Some(flags)
            &&& register(after, p.property) matches Some(x)
            &&& is_low_word(x as int, at + k * moves_by(p, flags))
            &&& n - k < 0x10000 ==> ended(d, c, c.state, after, k as int, n - k)
        }),
{
    let plan = read_only::read_only_plan(d, c, CommitMode::Full)->Ok_0;
    let shape = d.comparison->0;
    let dst = read_only::destination(d, shape)->0;
    lemma_walked(d, c, plan, i);
    let run = plan.whole_run(c.state);
    assert(run.iters as i32 == k);
    let half = run.state.committed(dst.property, run.dst_ptr as i32);
    let moved = match read_only::origin(d, shape) {
        Some(src) => half.committed(src.property, run.src_ptr as i32),
        None => half,
    };
    let left = rep::low_word(plan.n - run.iters);
    let counted = moved.committed(d.counter->0.property, left);
    let before = c.program.property_or_zero(counted, c.slots, dst.flag);
    let flags = plan.flags_after(run, before);
    let after = read_only::read_only_result(d, c, CommitMode::Full).1;
    lemma_ended_with_flags(d, c, moved, after, dst.flag, flags, k, left);
    assert(register(after, d.pointers[i].property) == register(moved, d.pointers[i].property));
    if plan.n - k < 0x10000 {
        vstd::arithmetic::div_mod::lemma_small_mod((plan.n - k) as nat, 0x10000);
    }
}

/// A pointer is the first with its prior value if no earlier one has it.
pub proof fn lemma_first_pointer(pointers: Seq<PointerModel>, i: int)
    requires
        0 <= i < pointers.len(),
        forall|j: int| 0 <= j < i ==> (#[trigger] pointers[j]).prior != pointers[i].prior,
    ensures
        rep::pointer_named(pointers, pointers[i].prior) == Some(pointers[i]),
    decreases pointers.len(),
{
    let rest = pointers.drop_last();
    if i < rest.len() {
        assert forall|j: int| 0 <= j < i implies (#[trigger] rest[j]).prior != rest[i].prior by {
            assert(pointers[j].prior != pointers[i].prior);
        }
        lemma_first_pointer(rest, i);
    } else {
        assert forall|j: int| 0 <= j < rest.len() implies (#[trigger] rest[j]).prior
            != pointers[i].prior by {
            assert(pointers[j].prior != pointers[i].prior);
        }
        lemma_named(rest, pointers[i].prior);
    }
}

/// A pointer that is found is one of the list and has the name.
pub proof fn lemma_named(pointers: Seq<PointerModel>, prior: Seq<char>)
    ensures
        rep::pointer_named(pointers, prior) matches Some(p) ==> exists|i: int|
            0 <= i < pointers.len() && (#[trigger] pointers[i]) == p && p.prior == prior && forall|
                j: int,
            |
                0 <= j < i ==> (#[trigger] pointers[j]).prior != prior,
        rep::pointer_named(pointers, prior) is None ==> forall|i: int|
            0 <= i < pointers.len() ==> (#[trigger] pointers[i]).prior != prior,
    decreases pointers.len(),
{
    if pointers.len() > 0 {
        let rest = pointers.drop_last();
        lemma_named(rest, prior);
        if let Some(p) = rep::pointer_named(rest, prior) {
            let i = choose|i: int|
                0 <= i < rest.len() && (#[trigger] rest[i]) == p && p.prior == prior && forall|
                    j: int,
                |
                    0 <= j < i ==> (#[trigger] rest[j]).prior != prior;
            assert(pointers[i] == p);
            assert forall|j: int| 0 <= j < i implies (#[trigger] pointers[j]).prior != prior by {
                assert(rest[j].prior != prior);
            }
        } else {
            let n = rest.len() as int;
            assert(pointers[n] == pointers.last());
            assert forall|j: int| 0 <= j < n implies (#[trigger] pointers[j]).prior != prior by {
                assert(rest[j].prior != prior);
            }
        }
    }
}

} // verus!

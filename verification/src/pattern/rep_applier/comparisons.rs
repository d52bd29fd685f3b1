//! What a comparing loop compares, when it ends, and which flags it leaves.

use crate::pattern::loop_descriptor::{ComparisonModel, LoopModel, SourceModel};
use crate::pattern::rep_applier as rep;
use crate::pattern::rep_applier::read_only;
use crate::pattern::rep_applier::read_only::{CompareModel, OperandModel};
use crate::pattern::rep_applier::registers;
use crate::pattern::rep_applier::{CommitMode, Context, OutcomeModel};
use crate::state::StateModel;
use vstd::prelude::*;

verus! {

// ---------------------------------------------------------------------------
// Flags
// ---------------------------------------------------------------------------

/// How many of the low eight bits of a number are set.
pub open spec fn low_ones(x: int) -> int {
    x % 2 + x / 2 % 2 + x / 4 % 2 + x / 8 % 2 + x / 16 % 2 + x / 32 % 2 + x / 64 % 2 + x / 128 % 2
}

proof fn lemma_ones(x: nat)
    requires
        x < 256,
    ensures
        read_only::ones(x) == low_ones(x as int),
{
    reveal_with_fuel(read_only::ones, 9);
    assert(x / 2 / 2 == x / 4);
    assert(x / 4 / 2 == x / 8);
    assert(x / 8 / 2 == x / 16);
    assert(x / 16 / 2 == x / 32);
    assert(x / 32 / 2 == x / 64);
    assert(x / 64 / 2 == x / 128);
    assert(x / 128 / 2 == 0);
}

/// The flag word after a subtraction of bytes or words: carry where the subtrahend is
/// larger, parity where the low byte of the difference has an even number of bits,
/// adjust where its low half is larger, zero where both are equal, sign where the
/// difference is in the upper half of the range, overflow where the difference of the
/// signed numbers is out of range. All other bits stay.
pub proof fn law_flags_of_a_difference(a: i32, b: i32, word: bool, before: i32)
    ensures
        ({
            let flags = read_only::subtraction_flags(a, b, word, before);
            let size: int = if word {
                0x10000
            } else {
                0x100
            };
            let x = a as int % size;
            let y = b as int % size;
            let half = size / 2;
            let difference = (x - y) % size;
            let exact = (if x >= half {
                x - size
            } else {
                x
            }) - (if y >= half {
                y - size
            } else {
                y
            });
            &&& flags & 0x001 != 0 <==> x < y
            &&& flags & 0x004 != 0 <==> low_ones(difference % 256) % 2 == 0
            &&& flags & 0x010 != 0 <==> x % 16 < y % 16
            &&& flags & 0x040 != 0 <==> x == y
            &&& flags & 0x080 != 0 <==> difference >= half
            &&& flags & 0x800 != 0 <==> exact < -half || exact >= half
            &&& flags & !0x8D5i32 == before & !0x8D5i32
        }),
{
    let size: int = if word {
        0x10000
    } else {
        0x100
    };
    let x = a as int % size;
    let y = b as int % size;
    let r = if x >= y {
        x - y
    } else {
        x - y + size
    };
    if x >= y {
        vstd::arithmetic::div_mod::lemma_small_mod(r as nat, size as nat);
    } else {
        vstd::arithmetic::div_mod::lemma_small_mod(r as nat, size as nat);
        vstd::arithmetic::div_mod::lemma_mod_add_multiples_vanish(x - y, size);
    }
    assert((x - y) % size == r);
    lemma_ones((r % 0x100) as nat);
    let exact = read_only::signed(x, size) - read_only::signed(y, size);
    let f1 = read_only::flag(x < y, 0x001);
    let f2 = read_only::flag(read_only::ones((r % 0x100) as nat) % 2 == 0, 0x004);
    let f3 = read_only::flag(x % 16 < y % 16, 0x010);
    let f4 = read_only::flag(r == 0, 0x040);
    let f5 = read_only::flag(r >= size / 2, 0x080);
    let f6 = read_only::flag(exact < -(size / 2) || exact >= size / 2, 0x800);
    let flags = (before & !0x8D5i32) | f1 | f2 | f3 | f4 | f5 | f6;
    assert(read_only::subtraction_flags(a, b, word, before) == flags);
    assert((flags & 0x001 != 0) == (f1 != 0) && (flags & 0x004 != 0) == (f2 != 0) && (flags & 0x010
        != 0) == (f3 != 0) && (flags & 0x040 != 0) == (f4 != 0) && (flags & 0x080 != 0) == (f5 != 0)
        && (flags & 0x800 != 0) == (f6 != 0) && flags & !0x8D5i32 == before & !0x8D5i32)
        by (bit_vector)
        requires
            flags == (before & !0x8D5i32) | f1 | f2 | f3 | f4 | f5 | f6,
            f1 == 0 || f1 == 0x001,
            f2 == 0 || f2 == 0x004,
            f3 == 0 || f3 == 0x010,
            f4 == 0 || f4 == 0x040,
            f5 == 0 || f5 == 0x080,
            f6 == 0 || f6 == 0x800,
    ;
}

// ---------------------------------------------------------------------------
// Operands
// ---------------------------------------------------------------------------

/// The low byte at a linear address, taken within the first megabyte.
pub open spec fn byte_at(s: StateModel, linear: int) -> int {
    s.read((linear % 0x100000) as i32) as int % 256
}

/// The byte or the little-endian word at a linear address.
pub open spec fn unit_at(s: StateModel, linear: int, word: bool) -> int {
    if word {
        byte_at(s, linear) + 256 * byte_at(s, linear + 1)
    } else {
        byte_at(s, linear)
    }
}

proof fn lemma_fetched(s: StateModel, base: int, offset: int, word: bool)
    ensures
        s.fetched(base, offset, word) == unit_at(s, base + offset, word),
{
    let x = s.read(read_only::linear(base, offset));
    let y = s.after_read(read_only::linear(base, offset)).read(
        read_only::linear(base, offset + 1),
    );
    assert(y == s.read(read_only::linear(base, offset + 1)));
    assert(base + (offset + 1) == base + offset + 1);
    assert(x & 0xFF == x % 0x100 && (x & 0xFF) | ((y & 0xFF) << 8u32) == x % 0x100 + 256 * (y
        % 0x100)) by (bit_vector);
}

/// The base that a segment register stands for.
pub open spec fn base_of(c: Context, segment: Seq<char>, scaled: bool) -> int {
    if scaled {
        (c.get_or_zero(segment) as int % 0x10000) * 16
    } else {
        c.get_or_zero(segment) as int
    }
}

/// What iteration `j` of a comparing loop reads behind its destination pointer, which
/// moves by `delta`.
pub open spec fn destination_seen(c: Context, shape: ComparisonModel, delta: int, j: int) -> int {
    unit_at(
        c.state,
        base_of(c, shape.segment, shape.scaled) + (c.get_or_zero(shape.pointer) + j * delta)
            % 0x10000,
        shape.width == 2,
    )
}

/// What iteration `j` compares it with.
pub open spec fn source_seen(c: Context, shape: ComparisonModel, delta: int, j: int) -> int {
    match shape.source {
        SourceModel::Pointer { segment, scaled, pointer } => unit_at(
            c.state,
            base_of(c, segment, scaled) + (c.get_or_zero(pointer) + j * delta) % 0x10000,
            shape.width == 2,
        ),
        SourceModel::Accumulator { byte, word } => if shape.width == 2 {
            c.get_or_zero(word) as int % 0x10000
        } else {
            c.get_or_zero(byte) as int % 0x100
        },
    }
}

/// What iteration `j` of a run reads behind a base, from an offset on.
spec fn read_in(m: CompareModel, s: StateModel, base: int, offset: int, j: int) -> int {
    unit_at(s, base + (offset + j * m.delta) % 0x10000, m.word)
}

spec fn source_in(m: CompareModel, s: StateModel, offset: int, j: int) -> int {
    match m.operand {
        OperandModel::Memory { base, .. } => read_in(m, s, base, offset, j),
        OperandModel::Register(v) => v as int,
    }
}

/// Does a run go on after iteration `j`?
spec fn goes_on(m: CompareModel, s: StateModel, dst: int, src: int, j: int) -> bool {
    let a = read_in(m, s, m.dst_base, dst, j);
    let b = source_in(m, s, src, j);
    !(m.repeat == 1 && a != b) && !(m.repeat == 2 && a == b)
}

proof fn lemma_next(m: CompareModel, s: StateModel, t: StateModel, base: int, offset: int, j: int)
    requires
        (StateModel { read_log: s.read_log, ..t }) == s,
    ensures
        read_in(m, t, base, (offset + m.delta) % 0x10000, j) == read_in(m, s, base, offset, j + 1),
{
    assert((j + 1) * m.delta == m.delta + j * m.delta) by (nonlinear_arith);
    registers::lemma_moves_again(offset, m.delta, j * m.delta);
    crate::script_eval::lemma_same_reads(s, t);
}

proof fn lemma_run_sees(m: CompareModel, s: StateModel, dst: int, src: int, left: int)
    requires
        left >= 1,
        0 <= dst < 0x10000,
        0 <= src < 0x10000,
    ensures
        ({
            let run = m.run(s, dst, src, left);
            let k = run.iters;
            &&& 1 <= k <= left
            &&& forall|j: int| 0 <= j < k - 1 ==> #[trigger] goes_on(m, s, dst, src, j)
            &&& k < left ==> !goes_on(m, s, dst, src, k - 1)
            &&& run.last_dst == read_in(m, s, m.dst_base, dst, k - 1)
            &&& run.last_src == source_in(m, s, src, k - 1)
        }),
    decreases left,
{
    let first = m.step(s, dst, src);
    lemma_fetched(s, m.dst_base, dst, m.word);
    let read = s.after_fetch(m.dst_base, dst, m.word);
    crate::script_eval::lemma_same_reads(s, read);
    assert(0 * m.delta == 0);
    vstd::arithmetic::div_mod::lemma_small_mod(dst as nat, 0x10000);
    vstd::arithmetic::div_mod::lemma_small_mod(src as nat, 0x10000);
    if let OperandModel::Memory { base, .. } = m.operand {
        lemma_fetched(read, base, src, m.word);
        assert(unit_at(read, base + src, m.word) == unit_at(s, base + src, m.word));
    }
    assert(first.last_dst == read_in(m, s, m.dst_base, dst, 0));
    assert(first.last_src == source_in(m, s, src, 0));
    assert(m.ends(first.last_dst, first.last_src) == !goes_on(m, s, dst, src, 0));
    if left > 1 && !m.ends(first.last_dst, first.last_src) {
        lemma_run_sees(m, first.state, first.dst_ptr, first.src_ptr, left - 1);
        let rest = m.run(first.state, first.dst_ptr, first.src_ptr, left - 1);
        let k = rest.iters + 1;
        assert forall|j: int| 0 <= j implies #[trigger] goes_on(m, s, dst, src, j + 1)
            == goes_on(m, first.state, first.dst_ptr, first.src_ptr, j) by {
            lemma_next(m, s, first.state, m.dst_base, dst, j);
            if let OperandModel::Memory { base, .. } = m.operand {
                lemma_next(m, s, first.state, base, src, j);
            }
        }
        assert forall|j: int| 0 <= j < k - 1 implies #[trigger] goes_on(m, s, dst, src, j) by {
            if j > 0 {
                assert(goes_on(m, s, dst, src, (j - 1) + 1) == goes_on(
                    m,
                    first.state,
                    first.dst_ptr,
                    first.src_ptr,
                    j - 1,
                ));
            }
        }
        lemma_next(m, s, first.state, m.dst_base, dst, k - 2);
        if let OperandModel::Memory { base, .. } = m.operand {
            lemma_next(m, s, first.state, base, src, k - 2);
        }
        assert(goes_on(m, s, dst, src, (k - 2) + 1) == goes_on(
            m,
            first.state,
            first.dst_ptr,
            first.src_ptr,
            k - 2,
        ));
    }
}

/// The number by which the repeat is told to go on: 1 as long as the operands are
/// equal, 2 as long as they differ.
pub open spec fn repeat_of(c: Context, shape: ComparisonModel) -> i32 {
    match shape.repeat {
        Some(slot) => c.get_or_zero(slot),
        None => 0,
    }
}

/// Does the loop go on after iteration `j`?
pub open spec fn repeats_after(c: Context, shape: ComparisonModel, delta: int, j: int) -> bool {
    let a = destination_seen(c, shape, delta, j);
    let b = source_seen(c, shape, delta, j);
    (repeat_of(c, shape) == 1 ==> a == b) && (repeat_of(c, shape) == 2 ==> a != b)
}

proof fn lemma_offset_of(at: int, moved: int)
    ensures
        (at % 0x10000 + moved) % 0x10000 == (at + moved) % 0x10000,
{
    registers::lemma_moves_again(at, 0, moved);
}

proof fn lemma_plan_sees(d: LoopModel, c: Context, shape: ComparisonModel, n: i32, i: int, j: int)
    requires
        read_only::compared(d, shape, c, n) is Ok,
        d.comparison == Some(shape),
        registers::walks(d, i),
        d.pointers[i].prior == shape.pointer,
    ensures
        ({
            let plan = read_only::compared(d, shape, c, n)->Ok_0;
            let src = match plan.operand {
                OperandModel::Memory { ptr, .. } => ptr,
                OperandModel::Register(_) => 0,
            };
            let p = d.pointers[i];
            &&& read_only::destination(d, shape) == Some(p)
            &&& c.get(p.flag) is Some
            &&& plan.delta == registers::moves_by(p, c.get(p.flag)->0)
            &&& plan.n == n
            &&& plan.word == (shape.width == 2)
            &&& plan.repeat == repeat_of(c, shape)
            &&& 0 <= plan.dst_ptr < 0x10000
            &&& 0 <= src < 0x10000
            &&& read_in(plan, c.state, plan.dst_base, plan.dst_ptr, j) == destination_seen(
                c,
                shape,
                plan.delta,
                j,
            )
            &&& source_in(plan, c.state, src, j) == source_seen(c, shape, plan.delta, j)
        }),
{
    registers::lemma_first_pointer(d.pointers, i);
    let plan = read_only::compared(d, shape, c, n)->Ok_0;
    let p = d.pointers[i];
    lemma_offset_of(c.get(p.prior)->0 as int, j * plan.delta);
    if let SourceModel::Pointer { pointer, .. } = shape.source {
        registers::lemma_named(d.pointers, pointer);
        let src = read_only::origin(d, shape)->0;
        assert(src.prior == pointer);
        lemma_offset_of(c.get(src.prior)->0 as int, j * plan.delta);
    }
}

/// A comparing loop makes iterations as long as its repeat says, in terms of the
/// memory behind its pointers: after every iteration but the last it was to go on, and
/// where it ended before its counter, it was not to go on after the last.
pub proof fn law_comparison_repeats_as_told(
    d: LoopModel,
    c: Context,
    commit: CommitMode,
    shape: ComparisonModel,
    k: i32,
    i: int,
)
    requires
        d.flag_conditioned,
        d.comparison == Some(shape),
        read_only::read_only_result(d, c, commit).0 == OutcomeModel::Applied(k),
        k > 0,
        registers::walks(d, i),
        d.pointers[i].prior == shape.pointer,
    ensures
        ({
            let p = d.pointers[i];
            &&& c.get(d.counter->0.property) matches Some(n)
            &&& c.get(p.flag) matches Some(flags)
            &&& 1 <= k <= n
            &&& forall|j: int|
                0 <= j < k - 1 ==> #[trigger] repeats_after(
                    c,
                    shape,
                    registers::moves_by(p, flags),
                    j,
                )
            &&& k < n ==> !repeats_after(c, shape, registers::moves_by(p, flags), k - 1)
        }),
{
    let plan = read_only::read_only_plan(d, c, commit)->Ok_0;
    let n = plan.n;
    let src = match plan.operand {
        OperandModel::Memory { ptr, .. } => ptr,
        OperandModel::Register(_) => 0,
    };
    lemma_plan_sees(d, c, shape, n, i, 0);
    lemma_run_sees(plan, c.state, plan.dst_ptr, src, n as int);
    let run = plan.whole_run(c.state);
    assert(run.iters as i32 == k);
    let p = d.pointers[i];
    let delta = registers::moves_by(p, c.get(p.flag)->0);
    assert forall|j: int| 0 <= j < k implies #[trigger] repeats_after(c, shape, delta, j)
        == goes_on(plan, c.state, plan.dst_ptr, src, j) by {
        lemma_plan_sees(d, c, shape, n, i, j);
    }
    assert forall|j: int| 0 <= j < k - 1 implies #[trigger] repeats_after(c, shape, delta, j) by {
        assert(goes_on(plan, c.state, plan.dst_ptr, src, j));
    }
    assert(repeats_after(c, shape, delta, k - 1) == goes_on(
        plan,
        c.state,
        plan.dst_ptr,
        src,
        k - 1,
    ));
}

/// After a comparing loop with all registers stored, the flag word is that of
/// subtracting what the last iteration read behind the destination pointer from what
/// it compared it with.
pub proof fn law_comparison_leaves_flags(
    d: LoopModel,
    c: Context,
    shape: ComparisonModel,
    k: i32,
    i: int,
)
    requires
        d.flag_conditioned,
        d.comparison == Some(shape),
        read_only::read_only_result(d, c, CommitMode::Full).0 == OutcomeModel::Applied(k),
        k > 0,
        registers::apart(d),
        c.state.names.len() == c.state.vars.len(),
        registers::walks(d, i),
        d.pointers[i].prior == shape.pointer,
        registers::register(c.state, d.pointers[i].property) is Some,
        registers::register(c.state, d.pointers[i].flag) is Some,
        registers::no_register(d, crate::names::canonical(d.pointers[i].flag)),
        d.ip_extra matches Some(slot) && registers::steady(d, c.program, slot) && (
        crate::names::canonical(slot) != crate::names::canonical(d.pointers[i].flag) || (
        !crate::names::buffer_copy(slot) && c.program.slots.contains_key(slot))),
    ensures
        ({
            let after = read_only::read_only_result(d, c, CommitMode::Full).1;
            let p = d.pointers[i];
            &&& c.get(p.flag) matches Some(flags)
            &&& ({
                let delta = registers::moves_by(p, flags);
                registers::register(after, p.flag) == Some(
                    read_only::subtraction_flags(
                        source_seen(c, shape, delta, k - 1) as i32,
                        destination_seen(c, shape, delta, k - 1) as i32,
                        shape.width == 2,
                        flags,
                    ),
                )
            })
        }),
{
    let plan = read_only::read_only_plan(d, c, CommitMode::Full)->Ok_0;
    let n = plan.n;
    let src = match plan.operand {
        OperandModel::Memory { ptr, .. } => ptr,
        OperandModel::Register(_) => 0,
    };
    lemma_plan_sees(d, c, shape, n, i, k - 1);
    lemma_run_sees(plan, c.state, plan.dst_ptr, src, n as int);
    registers::lemma_walked(d, c, plan, i);
    let run = plan.whole_run(c.state);
    assert(run.iters as i32 == k);
    let dst = read_only::destination(d, shape)->0;
    let half = run.state.committed(dst.property, run.dst_ptr as i32);
    let moved = match read_only::origin(d, shape) {
        Some(x) => half.committed(x.property, run.src_ptr as i32),
        None => half,
    };
    let left = rep::low_word(plan.n - run.iters);
    let counted = moved.committed(d.counter->0.property, left);
    let before = c.program.property_or_zero(counted, c.slots, dst.flag);
    let flags = plan.flags_after(run, before);
    let after = read_only::read_only_result(d, c, CommitMode::Full).1;
    registers::lemma_ended_with_flags(d, c, moved, after, dst.flag, flags, k, left);
    registers::lemma_committed(moved, d.counter->0.property, left);
    let word = crate::names::canonical(dst.flag);
    assert(counted.var(word) == moved.var(word));
    assert(moved.var(word) == c.state.var(word));
    assert(before == c.get(dst.flag)->0);
}

} // verus!

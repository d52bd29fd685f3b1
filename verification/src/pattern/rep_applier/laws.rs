//! What holds of every application of a loop.

use crate::memory_laws;
use crate::pattern::loop_descriptor as loops;
use crate::pattern::loop_descriptor::comparison;
use crate::pattern::loop_descriptor::family::{FamilyModel, MemberModel};
use crate::pattern::loop_descriptor::opcode;
use crate::pattern::loop_descriptor::runtime;
use crate::pattern::loop_descriptor::LoopModel;
use crate::pattern::rep_applier as rep;
use crate::pattern::rep_applier::copy;
use crate::pattern::rep_applier::fill;
use crate::pattern::rep_applier::read_only;
use crate::pattern::rep_applier::read_only::CompareModel;
use crate::pattern::rep_applier::{CommitMode, Context, OutcomeModel};
use crate::state;
use crate::state::StateModel;
use crate::types::AssignmentModel;
use vstd::prelude::*;

verus! {

// ---------------------------------------------------------------------------
// Refusals
// ---------------------------------------------------------------------------

/// A loop that is not applied, or that has no iterations left, leaves the state
/// as it was.
pub proof fn law_refusal_changes_nothing(d: LoopModel, c: Context, commit: CommitMode)
    ensures
        !(fill::fill_result(d, c, commit).0 matches OutcomeModel::Applied(n) && n > 0)
            ==> fill::fill_result(d, c, commit).1 == c.state,
        !(copy::copy_result(d, c, commit).0 matches OutcomeModel::Applied(n) && n > 0)
            ==> copy::copy_result(d, c, commit).1 == c.state,
        !(read_only::read_only_result(d, c, commit).0 matches OutcomeModel::Applied(n) && n > 0)
            ==> read_only::read_only_result(d, c, commit).1 == c.state,
{
    if let Ok(plan) = read_only::read_only_plan(d, c, commit) {
        lemma_run(plan, c.state, plan.dst_ptr, 0, plan.n as int);
        match plan.operand {
            read_only::OperandModel::Memory { ptr, .. } => {
                lemma_run(plan, c.state, plan.dst_ptr, ptr, plan.n as int);
            },
            _ => {},
        }
    }
}

/// A loop whose counter is zero or negative is done: nothing changes and no
/// iteration is counted, whatever else its descriptor holds.
pub proof fn law_no_iterations_left(d: LoopModel, c: Context, commit: CommitMode)
    requires
        runtime::undisturbed(d.overrides, c.program, c.state, c.slots),
        d.charge is Some,
        commit == CommitMode::Full ==> (d.ip_extra matches Some(slot) && c.get(slot) is Some),
        d.counter is Some,
        c.get(d.counter->0.property) matches Some(n) && n <= 0,
    ensures
        d.class == loops::BulkClass::Fill ==> fill::fill_result(d, c, commit) == (
            OutcomeModel::Applied(0),
            c.state,
        ),
        d.class == loops::BulkClass::Copy ==> copy::copy_result(d, c, commit) == (
            OutcomeModel::Applied(0),
            c.state,
        ),
        d.class == loops::BulkClass::ReadOnly ==> read_only::read_only_result(d, c, commit) == (
            OutcomeModel::Applied(0),
            c.state,
        ),
{
}

// ---------------------------------------------------------------------------
// Memory and registers
// ---------------------------------------------------------------------------

/// Storing the registers too changes variables only: memory, the extended table
/// and everything else end up the same, after the same number of iterations.
pub proof fn law_full_commit_adds_registers_only(d: LoopModel, c: Context)
    requires
        d.ip_extra matches Some(slot) && c.get(slot) is Some,
    ensures
        ({
            let a = fill::fill_result(d, c, CommitMode::Full);
            let b = fill::fill_result(d, c, CommitMode::MemoryOnly);
            a.0 == b.0 && (StateModel { vars: b.1.vars, ..a.1 }) == b.1
        }),
        ({
            let a = copy::copy_result(d, c, CommitMode::Full);
            let b = copy::copy_result(d, c, CommitMode::MemoryOnly);
            a.0 == b.0 && (StateModel { vars: b.1.vars, ..a.1 }) == b.1
        }),
        d.flag_conditioned ==> ({
            let a = read_only::read_only_result(d, c, CommitMode::Full);
            let b = read_only::read_only_result(d, c, CommitMode::MemoryOnly);
            a.0 == b.0 && (StateModel { vars: b.1.vars, ..a.1 }) == b.1
        }),
{
}

/// Putting bytes changes memory, the extended table and packed variables only.
proof fn lemma_put(s: StateModel, addr: int, byte: u8)
    ensures
        (StateModel {
            vars: s.vars,
            memory: s.memory,
            extended: s.extended,
            ..s.put(addr, byte)
        }) == s,
        s.pack == 0 ==> s.put(addr, byte).vars == s.vars,
{
}

proof fn lemma_put_all(s: StateModel, from: int, to: int, byte: u8)
    ensures
        (StateModel {
            vars: s.vars,
            memory: s.memory,
            extended: s.extended,
            ..s.put_all(from, to, byte)
        }) == s,
        s.pack == 0 ==> s.put_all(from, to, byte).vars == s.vars,
    decreases to - from,
{
    if from < to {
        lemma_put(s, from, byte);
        lemma_put_all(s.put(from, byte), from + 1, to, byte);
    }
}

proof fn lemma_rounds(s: StateModel, bytes: Seq<(int, u8)>, ptr: int, delta: int, i: nat)
    ensures
        (StateModel {
            vars: s.vars,
            memory: s.memory,
            extended: s.extended,
            ..s.rounds(bytes, ptr, delta, i)
        }) == s,
        s.pack == 0 ==> s.rounds(bytes, ptr, delta, i).vars == s.vars,
    decreases i,
{
    if i > 0 {
        lemma_rounds(s, bytes, ptr, delta, (i - 1) as nat);
        lemma_round(
            s.rounds(bytes, ptr, delta, (i - 1) as nat),
            bytes,
            ptr + (i - 1) * delta,
            bytes.len(),
        );
    }
}

proof fn lemma_round(s: StateModel, bytes: Seq<(int, u8)>, at: int, k: nat)
    ensures
        (StateModel {
            vars: s.vars,
            memory: s.memory,
            extended: s.extended,
            ..s.round(bytes, at, k)
        }) == s,
        s.pack == 0 ==> s.round(bytes, at, k).vars == s.vars,
    decreases k,
{
    if k > 0 {
        lemma_round(s, bytes, at, (k - 1) as nat);
        lemma_put(
            s.round(bytes, at, (k - 1) as nat),
            bytes[k - 1].0 + at + (k - 1),
            bytes[k - 1].1,
        );
    }
}

/// A fill in memory only changes bytes: the memory, the extended table and the
/// variables that pack bytes. Where memory is not packed, no variable changes.
pub proof fn law_fill_touches_bytes_only(d: LoopModel, c: Context)
    ensures
        ({
            let after = fill::fill_result(d, c, CommitMode::MemoryOnly).1;
            (StateModel {
                vars: c.state.vars,
                memory: c.state.memory,
                extended: c.state.extended,
                ..after
            }) == c.state && (c.state.pack == 0 ==> after.vars == c.state.vars)
        }),
{
    if let Ok(plan) = fill::fill_plan(d, c, CommitMode::MemoryOnly) {
        if plan.bytes.len() == 1 {
            lemma_put_all(
                c.state,
                plan.bytes[0].0 + plan.range().0,
                plan.bytes[0].0 + plan.range().1,
                plan.bytes[0].1,
            );
        } else {
            lemma_rounds(c.state, plan.bytes, plan.ptr as int, plan.delta(), plan.n as nat);
        }
    }
}

/// A read-only loop in memory only changes nothing but the log of reads.
pub proof fn law_read_only_writes_nothing(d: LoopModel, c: Context)
    ensures
        ({
            let after = read_only::read_only_result(d, c, CommitMode::MemoryOnly).1;
            (StateModel { read_log: c.state.read_log, ..after }) == c.state
        }),
{
    if let Ok(plan) = read_only::read_only_plan(d, c, CommitMode::MemoryOnly) {
        match plan.operand {
            read_only::OperandModel::Memory { ptr, .. } => {
                lemma_run(plan, c.state, plan.dst_ptr, ptr, plan.n as int);
            },
            _ => {
                lemma_run(plan, c.state, plan.dst_ptr, 0, plan.n as int);
            },
        }
    }
}

// ---------------------------------------------------------------------------
// Comparing loops
// ---------------------------------------------------------------------------

/// A run makes at least one and at most `left` iterations, changes nothing but
/// the log of reads, and ends early only on its ending condition.
proof fn lemma_run(m: CompareModel, s: StateModel, dst_ptr: int, src_ptr: int, left: int)
    requires
        left >= 1,
    ensures
        ({
            let run = m.run(s, dst_ptr, src_ptr, left);
            &&& 1 <= run.iters <= left
            &&& (StateModel { read_log: s.read_log, ..run.state }) == s
            &&& run.iters < left ==> m.ends(run.last_dst, run.last_src)
        }),
    decreases left,
{
    let first = m.step(s, dst_ptr, src_ptr);
    if left > 1 && !m.ends(first.last_dst, first.last_src) {
        lemma_run(m, first.state, first.dst_ptr, first.src_ptr, left - 1);
    }
}

/// A comparing loop makes at least one iteration and no more than its counter
/// allows; it stops early only on a difference while it repeats as long as its
/// operands are equal, and only on equality while it repeats as long as they
/// differ.
pub proof fn law_comparison_stops_in_time(d: LoopModel, c: Context, commit: CommitMode)
    requires
        read_only::read_only_plan(d, c, commit) is Ok,
    ensures
        ({
            let plan = read_only::read_only_plan(d, c, commit)->Ok_0;
            let run = plan.whole_run(c.state);
            &&& read_only::read_only_result(d, c, commit).0 == OutcomeModel::Applied(
                run.iters as i32,
            )
            &&& 1 <= run.iters <= plan.n
            &&& run.iters < plan.n ==> (plan.repeat == 1 && run.last_src != run.last_dst) || (
            plan.repeat == 2 && run.last_src == run.last_dst)
        }),
{
    let plan = read_only::read_only_plan(d, c, commit)->Ok_0;
    let src_ptr = match plan.operand {
        read_only::OperandModel::Memory { ptr, .. } => ptr,
        read_only::OperandModel::Register(_) => 0,
    };
    lemma_run(plan, c.state, plan.dst_ptr, src_ptr, plan.n as int);
}

/// After a comparison with all registers stored, the zero flag says whether the
/// last two operands were equal.
pub proof fn law_zero_flag(a: i32, b: i32, word: bool, before: i32)
    ensures
        (read_only::subtraction_flags(a, b, word, before) & 0x40 != 0) <==> (if word {
            a as int % 0x10000 == b as int % 0x10000
        } else {
            a as int % 0x100 == b as int % 0x100
        }),
{
    let size: int = if word {
        0x10000
    } else {
        0x100
    };
    let x = a as int % size;
    let y = b as int % size;
    let r = if x >= y {
        x - y
    } else {
        x - y + size
    };
    let difference = read_only::signed(x, size) - read_only::signed(y, size);
    let f1 = read_only::flag(x < y, 0x001);
    let f2 = read_only::flag(read_only::ones((r % 0x100) as nat) % 2 == 0, 0x004);
    let f3 = read_only::flag(x % 16 < y % 16, 0x010);
    let f4 = read_only::flag(r == 0, 0x040);
    let f5 = read_only::flag(r >= size / 2, 0x080);
    let f6 = read_only::flag(difference < -(size / 2) || difference >= size / 2, 0x800);
    assert(((before & !0x8D5i32) | f1 | f2 | f3 | f4 | f5 | f6) & 0x40 == f4 & 0x40) by (bit_vector)
        requires
            f1 == 0 || f1 == 0x001,
            f2 == 0 || f2 == 0x004,
            f3 == 0 || f3 == 0x010,
            f5 == 0 || f5 == 0x080,
            f6 == 0 || f6 == 0x800,
    ;
    assert(0i32 & 0x40 == 0 && 0x40i32 & 0x40 == 0x40) by (bit_vector);
}

/// The order of the two pointers of a comparing loop makes no difference: the
/// comparison names which of them is the destination and which the source.
pub proof fn law_pointer_order_is_free(d: LoopModel, c: Context, commit: CommitMode)
    requires
        d.pointers.len() == 2,
        d.pointers[0].prior != d.pointers[1].prior || d.pointers[0].flag == d.pointers[1].flag,
    ensures
        read_only::read_only_result(
            (LoopModel { pointers: seq![d.pointers[1], d.pointers[0]], ..d }),
            c,
            commit,
        ) == read_only::read_only_result(d, c, commit),
{
    let e = LoopModel { pointers: seq![d.pointers[1], d.pointers[0]], ..d };
    reveal_with_fuel(rep::pointer_named, 3);
    assert(d.pointers.drop_last().drop_last() =~= Seq::empty());
    assert(e.pointers.drop_last().drop_last() =~= Seq::empty());
    assert(d.pointers.drop_last().last() == d.pointers[0]);
    assert(e.pointers.drop_last().last() == d.pointers[1]);
}

// ---------------------------------------------------------------------------
// Iterations
// ---------------------------------------------------------------------------

/// A copy of `a + b` bytes is a copy of the first `a` followed by one of the
/// rest.
pub proof fn law_copy_splits(s: StateModel, src: int, dst: int, a: nat, b: nat)
    ensures
        s.copy(src, dst, (a + b) as int) == s.copy(src, dst, a as int).copy(
            src + a,
            dst + a,
            b as int,
        ),
    decreases a,
{
    if a > 0 {
        let next = s.after_read(src as i32).put(dst, state::low_byte(s.read(src as i32)));
        law_copy_splits(next, src + 1, dst + 1, (a - 1) as nat, b);
        assert(src + 1 + (a - 1) == src + a);
        assert(dst + 1 + (a - 1) == dst + a);
        assert(s.copy(src, dst, (a + b) as int) == next.copy(src + 1, dst + 1, a + b - 1));
        assert(s.copy(src, dst, a as int) == next.copy(src + 1, dst + 1, a - 1));
    }
}

/// One iteration of a copy is a plain copy.
proof fn lemma_moved_round(s: StateModel, src: int, dst: int, k: nat)
    ensures
        s.moved_round(src, dst, k) == s.copy(src, dst, k as int),
    decreases k,
{
    if k > 0 {
        let before = s.moved_round(src, dst, (k - 1) as nat);
        lemma_moved_round(s, src, dst, (k - 1) as nat);
        law_copy_splits(s, src, dst, (k - 1) as nat, 1);
        let from = (src + (k - 1)) as i32;
        let next = before.after_read(from).put(dst + (k - 1), state::low_byte(before.read(from)));
        assert(next.copy(src + k, dst + k, 0) == next);
        assert(src + (k - 1) + 1 == src + k);
    }
}

/// Copying all bytes in one go is what the iterations do one after the other,
/// each reading what the earlier ones stored.
pub proof fn law_copy_is_iterated(s: StateModel, src: int, dst: int, step: nat, n: nat)
    ensures
        s.copy(src, dst, (n * step) as int) == s.moved_rounds(src, dst, step, step as int, n),
    decreases n,
{
    if n > 0 {
        let m = (n - 1) as nat;
        assert(n * step == m * step + step) by (nonlinear_arith)
            requires
                n == m + 1,
        ;
        law_copy_is_iterated(s, src, dst, step, m);
        let before = s.moved_rounds(src, dst, step, step as int, m);
        law_copy_splits(s, src, dst, (m * step) as nat, step);
        assert((n - 1) * (step as int) == m * step);
        assert(0 <= m * step) by (nonlinear_arith)
            requires
                m >= 0,
                step >= 0,
        ;
        lemma_moved_round(before, src + m * step, dst + m * step, step);
    } else {
        assert(n * step == 0) by (nonlinear_arith)
            requires
                n == 0,
        ;
    }
}

/// Splicing one byte into two places of a cell can be done in either order.
proof fn lemma_splices_commute(cell: i32, a: int, b: int, byte: u8)
    requires
        0 <= a < 4,
        0 <= b < 4,
    ensures
        state::spliced(state::spliced(cell, a, byte), b, byte) == state::spliced(
            state::spliced(cell, b, byte),
            a,
            byte,
        ),
{
    let s = (8 * a) as u32;
    let t = (8 * b) as u32;
    let x = byte as i32;
    assert((((cell & !(0xFFi32 << s)) | (x << s)) & !(0xFFi32 << t)) | (x << t) == (((cell & !(
    0xFFi32 << t)) | (x << t)) & !(0xFFi32 << s)) | (x << s)) by (bit_vector)
        requires
            s == 0 || s == 8 || s == 16 || s == 24,
            t == 0 || t == 8 || t == 16 || t == 24,
            0 <= x <= 0xFF,
    ;
}

/// The same byte can be put at two addresses in either order.
proof fn lemma_puts_commute(s: StateModel, a: int, b: int, byte: u8)
    requires
        0 <= s.pack <= 4,
    ensures
        s.put(a, byte).put(b, byte) == s.put(b, byte).put(a, byte),
{
    let ab = s.put(a, byte).put(b, byte);
    let ba = s.put(b, byte).put(a, byte);
    assert(ab.memory =~= ba.memory);
    assert(ab.extended =~= ba.extended);
    if a >= 0 && b >= 0 {
        if let (Some((x, ox)), Some((y, oy))) = (s.packed(a), s.packed(b)) {
            assert(s.put(a, byte).packed(b) == s.packed(b));
            assert(s.put(b, byte).packed(a) == s.packed(a));
            assert(0 <= ox < 4 && 0 <= oy < 4) by {
                vstd::arithmetic::div_mod::lemma_mod_bound(a, s.pack);
                vstd::arithmetic::div_mod::lemma_mod_bound(b, s.pack);
            }
            if x == y {
                lemma_splices_commute(s.vars[x], ox, oy, byte);
            }
            assert(ab.vars =~= ba.vars);
        }
    }
    assert(ab =~= ba);
}

/// A byte put after a range was filled with it might as well be put first.
proof fn lemma_put_moves_forward(s: StateModel, x: int, from: int, to: int, byte: u8)
    requires
        0 <= s.pack <= 4,
    ensures
        s.put_all(from, to, byte).put(x, byte) == s.put(x, byte).put_all(from, to, byte),
    decreases to - from,
{
    if from < to {
        lemma_put(s, from, byte);
        lemma_put_moves_forward(s.put(from, byte), x, from + 1, to, byte);
        lemma_puts_commute(s, from, x, byte);
    }
}

/// The last byte of a filled range can be put last.
proof fn lemma_put_all_last(s: StateModel, from: int, to: int, byte: u8)
    requires
        from <= to,
    ensures
        s.put_all(from, to + 1, byte) == s.put_all(from, to, byte).put(to, byte),
    decreases to - from,
{
    if from < to {
        lemma_put_all_last(s.put(from, byte), from + 1, to, byte);
    } else {
        assert(s.put(from, byte).put_all(from + 1, to + 1, byte) == s.put(from, byte));
    }
}

/// Filling a range at once is what the iterations of a loop with one byte per
/// iteration do one after the other, upward or downward.
pub proof fn law_fill_is_iterated(s: StateModel, base: int, byte: u8, ptr: int, down: bool, n: nat)
    requires
        0 <= s.pack <= 4,
    ensures
        s.rounds(
            seq![(base, byte)],
            ptr,
            if down {
                -1
            } else {
                1
            },
            n,
        ) == s.put_all(
            base + rep::covered(ptr, n as int, 1, down).0,
            base + rep::covered(ptr, n as int, 1, down).1,
            byte,
        ),
    decreases n,
{
    let bytes = seq![(base, byte)];
    let delta: int = if down {
        -1
    } else {
        1
    };
    if n > 0 {
        let m = (n - 1) as nat;
        law_fill_is_iterated(s, base, byte, ptr, down, m);
        let before = s.rounds(bytes, ptr, delta, m);
        let at = ptr + m * delta;
        assert(bytes.len() == 1);
        assert(before.round(bytes, at, 0) == before);
        assert(before.round(bytes, at, 1) == before.put(base + at, byte));
        if down {
            assert(m * delta == -m);
            assert(before == s.put_all(base + ptr - (m - 1), base + ptr + 1, byte));
            lemma_put_moves_forward(s, base + at, base + at + 1, base + ptr + 1, byte);
        } else {
            assert(m * delta == m);
            lemma_put_all_last(s, base + ptr, base + at, byte);
        }
    }
}

// ---------------------------------------------------------------------------
// Recognised loops
// ---------------------------------------------------------------------------

proof fn lemma_pointers_in_bits(members: Seq<MemberModel>, k: i64, ip: Seq<char>)
    ensures
        forall|i: int|
            0 <= i < opcode::pointers_in(members, k, ip).len() ==> (
            #[trigger] opcode::pointers_in(members, k, ip)[i]).bit < 32,
    decreases members.len(),
{
    if members.len() > 0 {
        lemma_pointers_in_bits(members.drop_last(), k, ip);
        let before = opcode::pointers_in(members.drop_last(), k, ip);
        let now = opcode::pointers_in(members, k, ip);
        assert forall|i: int| 0 <= i < now.len() implies (#[trigger] now[i]).bit < 32 by {
            if i < before.len() {
                assert(now[i] == before[i]);
            }
        }
    }
}

/// Every recognised loop can be handed to the appliers: its direction bits are
/// bits of a 32-bit word.
pub proof fn law_recognised_loops_apply(f: FamilyModel, k: i64, v: Seq<AssignmentModel>)
    requires
        opcode::loop_for(f, k, v) is Some,
    ensures
        rep::bits_in_word(opcode::loop_for(f, k, v)->0),
{
    reveal(opcode::loop_for);
    let (ip, _shape) = opcode::ip_from(f.members, k, 0)->0;
    lemma_pointers_in_bits(f.members, k, ip);
}

proof fn lemma_put_all_reads_back(m: StateModel, from: int, to: int, byte: u8, addr: i32)
    requires
        m.backed(addr as int),
        m.cells_distinct(),
        0 <= m.pack <= 4,
    ensures
        m.put_all(from, to, byte).read(addr) == if from <= addr < to {
            byte as i32
        } else {
            m.read(addr)
        },
    decreases to - from,
{
    if from < to {
        memory_laws::law_put_reads_back(m, from, byte, addr);
        lemma_put_all_reads_back(m.put(from, byte), from + 1, to, byte, addr);
    }
}

/// After a fill with one byte per iteration, every address that the pointer covered reads
/// the byte, and every other address reads what it read before.
pub proof fn law_fill_reads_back(d: LoopModel, c: Context, addr: i32)
    requires
        fill::fill_plan(d, c, CommitMode::MemoryOnly) is Ok,
        d.writes.len() == 1,
        c.state.backed(addr as int),
        c.state.cells_distinct(),
        0 <= c.state.pack <= 4,
    ensures
        ({
            let plan = fill::fill_plan(d, c, CommitMode::MemoryOnly)->Ok_0;
            let (base, byte) = plan.bytes[0];
            let after = fill::fill_result(d, c, CommitMode::MemoryOnly).1;
            after.read(addr) == if base + plan.range().0 <= addr < base + plan.range().1 {
                byte as i32
            } else {
                c.state.read(addr)
            }
        }),
{
    let plan = fill::fill_plan(d, c, CommitMode::MemoryOnly)->Ok_0;
    assert(d.writes.drop_last() =~= Seq::empty());
    reveal_with_fuel(fill::all_prepared, 2);
    assert(plan.bytes.len() == 1);
    let (base, byte) = plan.bytes[0];
    lemma_put_all_reads_back(
        c.state,
        base + plan.range().0,
        base + plan.range().1,
        byte,
        addr,
    );
}

} // verus!

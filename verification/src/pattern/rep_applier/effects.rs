//! What memory holds after all iterations of a loop, and what a comparison saw.

use crate::memory_laws;
use crate::pattern::loop_descriptor::{LoopModel, PointerModel, StoreModel};
use crate::pattern::rep_applier as rep;
use crate::pattern::rep_applier::copy;
use crate::pattern::rep_applier::fill;
use crate::pattern::rep_applier::laws;
use crate::pattern::rep_applier::registers;
use crate::pattern::rep_applier::{CommitMode, Context, OutcomeModel};
use crate::state;
use crate::state::StateModel;
use crate::types::ExprModel;
use vstd::prelude::*;

verus! {

// ---------------------------------------------------------------------------
// Places
// ---------------------------------------------------------------------------

/// Is an address one of the `step` bytes that iteration `j` touches, when the first
/// iteration begins at `start` and every other one `delta` farther on?
pub open spec fn in_iteration(start: int, delta: int, step: int, j: int, addr: int) -> bool {
    start + j * delta <= addr < start + j * delta + step
}

/// No address belongs to two iterations.
proof fn lemma_iterations_apart(start: int, delta: int, step: int, i: int, j: int, addr: int)
    requires
        step > 0,
        delta == step || delta == -step,
        i != j,
        in_iteration(start, delta, step, i, addr),
    ensures
        !in_iteration(start, delta, step, j, addr),
{
    let gap = i - j;
    assert(i * delta - j * delta == gap * delta) by (nonlinear_arith)
        requires
            gap == i - j,
    ;
    assert(gap * delta >= step || gap * delta <= -step) by (nonlinear_arith)
        requires
            gap != 0,
            step > 0,
            delta == step || delta == -step,
    ;
}

/// Can the bytes of memory be read back?
pub open spec fn readable(s: StateModel) -> bool {
    s.cells_distinct() && 0 <= s.pack <= 4
}

// ---------------------------------------------------------------------------
// Fills
// ---------------------------------------------------------------------------

proof fn lemma_round_reads(
    s: StateModel,
    bytes: Seq<(int, u8)>,
    base: int,
    at: int,
    k: nat,
    addr: i32,
)
    requires
        readable(s),
        s.backed(addr as int),
        k <= bytes.len(),
        forall|j: int| 0 <= j < bytes.len() ==> (#[trigger] bytes[j]).0 == base,
    ensures
        readable(s.round(bytes, at, k)),
        s.round(bytes, at, k).backed(addr as int),
        s.round(bytes, at, k).read(addr) == if base + at <= addr < base + at + k {
            bytes[addr - base - at].1 as i32
        } else {
            s.read(addr)
        },
    decreases k,
{
    if k > 0 {
        lemma_round_reads(s, bytes, base, at, (k - 1) as nat, addr);
        let before = s.round(bytes, at, (k - 1) as nat);
        assert(bytes[k - 1].0 == base);
        memory_laws::law_put_reads_back(before, base + at + (k - 1), bytes[k - 1].1, addr);
    }
}

proof fn lemma_rounds_read(
    s: StateModel,
    bytes: Seq<(int, u8)>,
    base: int,
    ptr: int,
    delta: int,
    n: nat,
    addr: i32,
)
    requires
        readable(s),
        s.backed(addr as int),
        bytes.len() > 0,
        delta == bytes.len() || delta == -bytes.len(),
        forall|j: int| 0 <= j < bytes.len() ==> (#[trigger] bytes[j]).0 == base,
    ensures
        readable(s.rounds(bytes, ptr, delta, n)),
        s.rounds(bytes, ptr, delta, n).backed(addr as int),
        forall|j: int|
            0 <= j < n && #[trigger] in_iteration(
                base + ptr,
                delta,
                bytes.len() as int,
                j,
                addr as int,
            ) ==> s.rounds(bytes, ptr, delta, n).read(addr) == bytes[addr - base - ptr - j
                * delta].1,
        (forall|j: int|
            0 <= j < n ==> !#[trigger] in_iteration(
                base + ptr,
                delta,
                bytes.len() as int,
                j,
                addr as int,
            )) ==> s.rounds(bytes, ptr, delta, n).read(addr) == s.read(addr),
    decreases n,
{
    if n > 0 {
        let m = (n - 1) as nat;
        let step = bytes.len() as int;
        lemma_rounds_read(s, bytes, base, ptr, delta, m, addr);
        let before = s.rounds(bytes, ptr, delta, m);
        lemma_round_reads(before, bytes, base, ptr + m * delta, bytes.len(), addr);
        assert((n - 1) * delta == m * delta);
        assert forall|j: int|
            0 <= j < n && #[trigger] in_iteration(
                base + ptr,
                delta,
                step,
                j,
                addr as int,
            ) implies s.rounds(bytes, ptr, delta, n).read(addr) == bytes[addr - base - ptr - j
            * delta].1 by {
            if j < m {
                lemma_iterations_apart(base + ptr, delta, step, j, m as int, addr as int);
                assert(!in_iteration(base + ptr, delta, step, m as int, addr as int));
            }
        }
        if forall|j: int|
            0 <= j < n ==> !#[trigger] in_iteration(base + ptr, delta, step, j, addr as int) {
            assert(!in_iteration(base + ptr, delta, step, m as int, addr as int));
        }
    }
}

proof fn lemma_prepared(writes: Seq<StoreModel>, c: Context)
    ensures
        fill::all_prepared(writes, c) matches Ok(bytes) ==> bytes.len() == writes.len() && forall|
            w: int,
        |
            0 <= w < writes.len() ==> fill::prepared(writes[w], c) == Ok::<
                (int, u8),
                OutcomeModel,
            >(#[trigger] bytes[w]),
        fill::all_prepared(writes, c) matches Err(o) ==> o is Unsupported,
    decreases writes.len(),
{
    if writes.len() > 0 {
        lemma_prepared(writes.drop_last(), c);
    }
}

/// The segment of a write's address, and the variable that its value is.
pub open spec fn stores_variable(w: StoreModel, c: Context, base: int, value: i32) -> bool {
    &&& w.parts matches Some((segment, _))
    &&& c.get(segment) matches Some(s)
    &&& base == s * 16
    &&& w.value matches ExprModel::Var(name, _)
    &&& c.get(name) == Some(value)
}

/// After a fill, write `w` of every iteration has left the low byte of its variable:
/// at the segment times 16, plus the pointer moved once per earlier iteration, plus
/// the place of the write. Every address that no iteration touched reads as before.
/// The writes share their segment, as one pointer walks through it.
pub proof fn law_fill_stores_its_bytes(
    d: LoopModel,
    c: Context,
    n: i32,
    base: int,
    values: Seq<i32>,
    addr: i32,
)
    requires
        fill::fill_result(d, c, CommitMode::MemoryOnly).0 == OutcomeModel::Applied(n),
        n > 0,
        values.len() == d.writes.len(),
        forall|w: int|
            0 <= w < d.writes.len() ==> stores_variable(#[trigger] d.writes[w], c, base, values[w]),
        readable(c.state),
        c.state.backed(addr as int),
    ensures
        ({
            let after = fill::fill_result(d, c, CommitMode::MemoryOnly).1;
            let p = d.pointers[0];
            &&& c.get(p.prior) matches Some(at)
            &&& c.get(p.flag) matches Some(flags)
            &&& ({
                let start = base + at;
                let delta = registers::moves_by(p, flags);
                &&& forall|j: int|
                    0 <= j < n && #[trigger] in_iteration(
                        start,
                        delta,
                        p.step as int,
                        j,
                        addr as int,
                    ) ==> after.read(addr) == values[addr - start - j * delta] as int % 256
                &&& (forall|j: int|
                    0 <= j < n ==> !#[trigger] in_iteration(
                        start,
                        delta,
                        p.step as int,
                        j,
                        addr as int,
                    )) ==> after.read(addr) == c.state.read(addr)
            })
        }),
{
    lemma_prepared(d.writes, c);
    let plan = fill::fill_plan(d, c, CommitMode::MemoryOnly)->Ok_0;
    let p = d.pointers[0];
    let bytes = plan.bytes;
    assert forall|w: int| 0 <= w < bytes.len() implies (#[trigger] bytes[w]).0 == base
        && bytes[w].1 as int == values[w] as int % 256 by {
        assert(stores_variable(d.writes[w], c, base, values[w]));
        assert(fill::prepared(d.writes[w], c) == Ok::<(int, u8), OutcomeModel>(bytes[w]));
        lemma_low_byte(values[w]);
    }
    let s = c.state;
    if bytes.len() == 1 {
        laws::law_fill_is_iterated(
            s,
            base,
            bytes[0].1,
            plan.ptr as int,
            plan.down,
            plan.n as nat,
        );
        assert(bytes =~= seq![(base, bytes[0].1)]);
    }
    assert(s.filled(plan) == s.rounds(bytes, plan.ptr as int, plan.delta(), plan.n as nat));
    lemma_rounds_read(s, bytes, base, plan.ptr as int, plan.delta(), plan.n as nat, addr);
    let after = fill::fill_result(d, c, CommitMode::MemoryOnly).1;
    let start = base + plan.ptr;
    let delta = plan.delta();
    assert(delta == registers::moves_by(p, c.get(p.flag)->0));
    assert(p.step as int == bytes.len());
    if forall|j: int|
        0 <= j < n ==> !#[trigger] in_iteration(start, delta, p.step as int, j, addr as int) {
        assert(after.read(addr) == c.state.read(addr));
    }
    assert forall|j: int|
        0 <= j < n && #[trigger] in_iteration(
            start,
            delta,
            p.step as int,
            j,
            addr as int,
        ) implies after.read(addr) == values[addr - start - j * delta] as int % 256 by {
        let w = addr - base - plan.ptr - j * delta;
        assert(after.read(addr) == bytes[w].1);
        assert(0 <= w < bytes.len());
    }
}

proof fn lemma_low_byte(v: i32)
    ensures
        state::low_byte(v) as int == v as int % 256,
{
    assert(v & 0xFF == v % 0x100 && 0 <= (v & 0xFF) < 0x100) by (bit_vector);
}

// ---------------------------------------------------------------------------
// Copies
// ---------------------------------------------------------------------------

/// Can an address be read back, and is it none of the `k` from `dst` on?
spec fn free_source(s: StateModel, dst: int, k: int, x: int) -> bool {
    0 <= x <= i32::MAX && s.backed(x) && !(dst <= x < dst + k)
}

proof fn lemma_moved_round_reads(s: StateModel, src: int, dst: int, k: nat, addr: i32)
    requires
        readable(s),
        s.backed(addr as int),
        forall|x: int| src <= x < src + k ==> #[trigger] free_source(s, dst, k as int, x),
    ensures
        readable(s.moved_round(src, dst, k)),
        s.moved_round(src, dst, k).backed(addr as int),
        s.moved_round(src, dst, k).read(addr) == if dst <= addr < dst + k {
            s.read((src + (addr - dst)) as i32) as int % 256
        } else {
            s.read(addr) as int
        },
    decreases k,
{
    if k > 0 {
        let m = (k - 1) as nat;
        let from = (src + m) as i32;
        assert(free_source(s, dst, k as int, src + m));
        assert forall|x: int| src <= x < src + m implies #[trigger] free_source(
            s,
            dst,
            m as int,
            x,
        ) by {
            assert(free_source(s, dst, k as int, x));
        }
        lemma_moved_round_reads(s, src, dst, m, addr);
        lemma_moved_round_reads(s, src, dst, m, from);
        let before = s.moved_round(src, dst, m);
        lemma_low_byte(before.read(from));
        let read = before.after_read(from);
        memory_laws::law_reads_change_nothing(before, from, addr);
        assert(read.packed(addr as int) == before.packed(addr as int));
        assert(read.backed(addr as int));
        memory_laws::law_put_reads_back(read, dst + m, state::low_byte(before.read(from)), addr);
    }
}

/// Does no iteration write where an iteration reads, and can all that is read be
/// read back?
pub open spec fn source_apart(
    s: StateModel,
    src: int,
    dst: int,
    delta: int,
    step: int,
    n: int,
) -> bool {
    forall|j: int, x: int|
        0 <= j < n && #[trigger] in_iteration(src, delta, step, j, x) ==> 0 <= x <= i32::MAX
            && s.backed(x) && touched_by_none(dst, delta, step, n, x)
}

/// Does none of the iterations touch an address?
pub open spec fn touched_by_none(start: int, delta: int, step: int, n: int, x: int) -> bool {
    forall|j: int| 0 <= j < n ==> !#[trigger] in_iteration(start, delta, step, j, x)
}

proof fn lemma_moved_rounds_read(
    s: StateModel,
    src: int,
    dst: int,
    step: nat,
    delta: int,
    n: nat,
    addr: i32,
)
    requires
        readable(s),
        s.backed(addr as int),
        step > 0,
        delta == step || delta == -step,
        source_apart(s, src, dst, delta, step as int, n as int),
    ensures
        readable(s.moved_rounds(src, dst, step, delta, n)),
        s.moved_rounds(src, dst, step, delta, n).backed(addr as int),
        forall|j: int|
            0 <= j < n && #[trigger] in_iteration(dst, delta, step as int, j, addr as int)
                ==> s.moved_rounds(src, dst, step, delta, n).read(addr) == s.read(
                (addr - dst + src) as i32,
            ) as int % 256,
        touched_by_none(dst, delta, step as int, n as int, addr as int) ==> s.moved_rounds(
            src,
            dst,
            step,
            delta,
            n,
        ).read(addr) == s.read(addr),
    decreases n,
{
    if n > 0 {
        let m = (n - 1) as nat;
        let size = step as int;
        assert(source_apart(s, src, dst, delta, size, m as int)) by {
            assert forall|j: int, x: int|
                0 <= j < m && #[trigger] in_iteration(src, delta, size, j, x) implies 0 <= x
                <= i32::MAX && s.backed(x) && touched_by_none(dst, delta, size, m as int, x) by {
                assert(touched_by_none(dst, delta, size, n as int, x));
            }
        }
        lemma_moved_rounds_read(s, src, dst, step, delta, m, addr);
        let before = s.moved_rounds(src, dst, step, delta, m);
        let from = src + m * delta;
        let to = dst + m * delta;
        assert((n - 1) * delta == m * delta);
        assert forall|x: int| from <= x < from + step implies #[trigger] free_source(
            before,
            to,
            size,
            x,
        ) && before.read(x as i32) == s.read(x as i32) by {
            assert(in_iteration(src, delta, size, m as int, x));
            assert(touched_by_none(dst, delta, size, n as int, x));
            assert(!in_iteration(dst, delta, size, m as int, x));
            assert(touched_by_none(dst, delta, size, m as int, x));
            lemma_moved_rounds_read(s, src, dst, step, delta, m, x as i32);
        }
        lemma_moved_round_reads(before, from, to, step, addr);
        let after = s.moved_rounds(src, dst, step, delta, n);
        assert forall|j: int|
            0 <= j < n && #[trigger] in_iteration(
                dst,
                delta,
                size,
                j,
                addr as int,
            ) implies after.read(addr) == s.read((addr - dst + src) as i32) as int % 256 by {
            if j < m {
                lemma_iterations_apart(dst, delta, size, j, m as int, addr as int);
                assert(!in_iteration(dst, delta, size, m as int, addr as int));
            } else {
                let x = from + (addr - to);
                assert(free_source(before, to, size, x));
                assert(x == addr - dst + src);
            }
        }
        if touched_by_none(dst, delta, size, n as int, addr as int) {
            assert(!in_iteration(dst, delta, size, m as int, addr as int));
            assert(touched_by_none(dst, delta, size, m as int, addr as int));
        }
    }
}

/// The pointer and the linear base of what a copy writes.
pub open spec fn writes_behind(w: StoreModel, c: Context, p: PointerModel, base: int) -> bool {
    &&& w.parts matches Some((segment, pointer))
    &&& pointer == p.prior
    &&& c.get(segment) matches Some(s)
    &&& base == s * 16
}

/// The pointer and the linear base of what a copy reads.
pub open spec fn reads_behind(w: StoreModel, c: Context, p: PointerModel, base: int) -> bool {
    &&& w.read matches Some(read)
    &&& read.pointer == p.prior
    &&& read.segment matches Some(segment)
    &&& c.get(segment) matches Some(s)
    &&& base == if read.scaled {
        s * 16
    } else {
        s as int
    }
}

/// After a copy whose destination does not meet its source, every byte behind the
/// destination pointer is the low byte that stood at the same place behind the source
/// pointer, for as many bytes as the pointers move over; every other address reads as
/// before. The destination's base is its segment times 16, the source's is its
/// segment, times 16 where it is scaled.
pub proof fn law_copy_moves_its_bytes(
    d: LoopModel,
    c: Context,
    n: i32,
    to: int,
    from: int,
    dst_base: int,
    src_base: int,
    addr: i32,
)
    requires
        copy::copy_result(d, c, CommitMode::MemoryOnly).0 == OutcomeModel::Applied(n),
        n > 0,
        0 <= to < d.pointers.len(),
        0 <= from < d.pointers.len(),
        d.writes.len() > 0,
        writes_behind(d.writes[0], c, d.pointers[to], dst_base),
        reads_behind(d.writes[0], c, d.pointers[from], src_base),
        d.pointers[0].prior != d.pointers[1].prior,
        readable(c.state),
        c.state.backed(addr as int),
        c.get(d.pointers[to].flag) matches Some(flags) && source_apart(
            c.state,
            src_base + c.get_or_zero(d.pointers[from].prior),
            dst_base + c.get_or_zero(d.pointers[to].prior),
            registers::moves_by(d.pointers[to], flags),
            d.pointers[to].step as int,
            n as int,
        ),
    ensures
        ({
            let after = copy::copy_result(d, c, CommitMode::MemoryOnly).1;
            let p = d.pointers[to];
            let delta = registers::moves_by(p, c.get(p.flag)->0);
            let src = src_base + c.get_or_zero(d.pointers[from].prior);
            let dst = dst_base + c.get_or_zero(p.prior);
            &&& forall|j: int|
                0 <= j < n && #[trigger] in_iteration(dst, delta, p.step as int, j, addr as int)
                    ==> after.read(addr) == c.state.read((addr - dst + src) as i32) as int % 256
            &&& touched_by_none(dst, delta, p.step as int, n as int, addr as int) ==> after.read(
                addr,
            ) == c.state.read(addr)
        }),
{
    let plan = copy::copy_plan(d, c, CommitMode::MemoryOnly)->Ok_0;
    let shape = copy::copy_shape(d)->Ok_0;
    reveal_with_fuel(rep::pointer_named, 3);
    assert(d.pointers.drop_last().drop_last() =~= Seq::empty());
    assert(d.pointers.drop_last().last() == d.pointers[0]);
    assert(shape.dst == d.pointers[to]);
    assert(shape.src == d.pointers[from]);
    let p = d.pointers[to];
    let delta = plan.delta();
    assert(delta == registers::moves_by(p, c.get(p.flag)->0));
    assert(plan.step > 0);
    lemma_moved_rounds_read(
        c.state,
        plan.src_base + plan.src_ptr,
        plan.dst_base + plan.dst_ptr,
        plan.step as nat,
        delta,
        plan.n as nat,
        addr,
    );
}

} // verus!

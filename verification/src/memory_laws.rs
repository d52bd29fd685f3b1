//! What holds between reads, writes, fills, copies and gates of a state.

use crate::state;
use crate::state::{EdgeModel, StateModel, EXTENDED_BASE};
use vstd::prelude::*;

verus! {

impl StateModel {
    /// No two packed cells share a variable.
    pub open spec fn cells_distinct(self) -> bool {
        forall|i: int, j: int|
            0 <= i < j < self.cells.len() && (#[trigger] self.cells[i]) < 0 && (
            #[trigger] self.cells[j]) < 0 ==> self.cells[i] != self.cells[j]
    }

    /// Reads of `addr` do not go through the keyed window.
    pub open spec fn outside_window(self, addr: int) -> bool {
        self.window is Some ==> !self.window->0.has(addr)
    }

    /// A byte address that something stores: the byte array or a packed cell.
    pub open spec fn byte_backed(self, addr: int) -> bool {
        0 <= addr < EXTENDED_BASE && (addr < self.memory.len() || self.packed(addr) is Some)
            && self.outside_window(addr)
    }

    /// An address whose value the extended table holds.
    pub open spec fn word_backed(self, addr: int) -> bool {
        addr >= EXTENDED_BASE && self.packed(addr) is None && self.outside_window(addr)
    }

    /// An address at which something holds a byte and reads find it: a packed
    /// cell, the byte array, or the extended table.
    pub open spec fn backed(self, addr: int) -> bool {
        addr >= 0 && (self.packed(addr) is Some || (self.outside_window(addr) && (addr
            >= EXTENDED_BASE || addr < self.memory.len())))
    }

    /// The byte array holds the same byte as the packed cell, at every address that
    /// both cover.
    pub open spec fn in_step(self) -> bool {
        forall|a: int|
            #![trigger self.packed(a)]
            0 <= a < self.memory.len() && self.packed(a) is Some ==> self.memory[a]
                == state::cell_byte(self.vars[(self.packed(a)->0).0], (self.packed(a)->0).1)
    }

    /// Is there something that holds a value at the address: a byte of the array,
    /// or the extended table?
    pub open spec fn holds(self, addr: int) -> bool {
        0 <= addr <= i32::MAX && (addr < EXTENDED_BASE ==> addr < self.memory.len())
    }

    /// Memory is neither packed nor windowed.
    pub open spec fn plain(self) -> bool {
        self.pack == 0 && self.window is None
    }
}

/// A value written to a variable's address is read back whole.
pub proof fn law_variable_reads_back(m: StateModel, addr: i32, value: i32)
    requires
        addr < 0,
        -(addr + 1) < m.vars.len(),
    ensures
        m.write(addr, value).read(addr) == value,
{
}

/// A value written to an extended address is read back whole, where no packed
/// cell and no window covers the address.
pub proof fn law_extended_reads_back(m: StateModel, addr: i32, value: i32)
    requires
        m.word_backed(addr as int),
    ensures
        m.write(addr, value).read(addr) == value,
{
}

/// Of a value written to a byte address the low byte is read back, packed or
/// not.
pub proof fn law_byte_reads_back(m: StateModel, addr: i32, value: i32)
    requires
        m.byte_backed(addr as int),
        0 <= m.pack <= 4,
    ensures
        m.write(addr, value).read(addr) == state::low_byte(value),
{
    lemma_store_reads_back(
        StateModel { write_log: state::logged(m.write_log, addr, value), ..m },
        addr,
        state::low_byte(value),
    );
}

proof fn lemma_store_reads_back(m: StateModel, addr: i32, byte: u8)
    requires
        m.byte_backed(addr as int),
        0 <= m.pack <= 4,
    ensures
        m.store(addr as int, byte).read(addr) == byte,
{
    match m.packed(addr as int) {
        Some((slot, off)) => {
            state::lemma_splice(m.vars[slot], off, byte);
            assert(m.store(addr as int, byte).packed(addr as int) == m.packed(addr as int));
        },
        None => {
            assert(m.store(addr as int, byte).packed(addr as int) is None);
        },
    }
}

/// A byte stored at one address leaves every other byte address as it was,
/// provided no two packed cells share a variable.
pub proof fn law_store_leaves_other_bytes(m: StateModel, addr: int, byte: u8, other: i32)
    requires
        0 <= addr,
        0 <= other,
        addr != other,
        m.cells_distinct(),
        m.packed(other as int) is Some || m.outside_window(other as int),
        0 <= m.pack <= 4,
    ensures
        m.store(addr, byte).read(other) == m.read(other),
{
    let after = m.store(addr, byte);
    assert(after.packed(other as int) == m.packed(other as int));
    match (m.packed(addr), m.packed(other as int)) {
        (Some((s, a)), Some((t, b))) => {
            if s == t {
                let i = addr / m.pack;
                let j = other as int / m.pack;
                assert(m.cells[i] == m.cells[j]);
                assert(i == j);
                assert(a != b) by {
                    vstd::arithmetic::div_mod::lemma_fundamental_div_mod(addr, m.pack);
                    vstd::arithmetic::div_mod::lemma_fundamental_div_mod(other as int, m.pack);
                }
                state::lemma_splice(m.vars[s], a, byte);
            }
        },
        _ => {},
    }
}

/// A stored byte keeps the byte array in step with the packed cells.
pub proof fn law_store_keeps_step(m: StateModel, addr: int, byte: u8)
    requires
        m.in_step(),
        m.cells_distinct(),
        0 <= m.pack <= 4,
        0 <= addr,
    ensures
        m.store(addr, byte).in_step(),
{
    let after = m.store(addr, byte);
    assert forall|a: int|
        #![trigger after.packed(a)]
        0 <= a < after.memory.len() && after.packed(a) is Some implies after.memory[a]
        == state::cell_byte(after.vars[(after.packed(a)->0).0], (after.packed(a)->0).1) by {
        assert(after.packed(a) == m.packed(a));
        let (t, b) = m.packed(a)->0;
        match m.packed(addr) {
            Some((s, o)) => {
                state::lemma_splice(m.vars[s], o, byte);
                if s == t {
                    assert(m.cells[addr / m.pack] == m.cells[a / m.pack]);
                    assert(addr / m.pack == a / m.pack);
                    vstd::arithmetic::div_mod::lemma_fundamental_div_mod(addr, m.pack);
                    vstd::arithmetic::div_mod::lemma_fundamental_div_mod(a, m.pack);
                }
            },
            None => {
                assert(addr != a);
            },
        }
    }
}

proof fn lemma_same_step(m: StateModel, n: StateModel)
    requires
        m.in_step(),
        n == (StateModel { extended: n.extended, read_log: n.read_log, write_log: n.write_log, ..m }),
    ensures
        n.in_step(),
{
    assert forall|a: int|
        #![trigger n.packed(a)]
        0 <= a < n.memory.len() && n.packed(a) is Some implies n.memory[a] == state::cell_byte(
        n.vars[(n.packed(a)->0).0],
        (n.packed(a)->0).1,
    ) by {
        assert(n.packed(a) == m.packed(a));
    }
}

proof fn lemma_put_keeps_step(m: StateModel, addr: int, byte: u8)
    requires
        m.in_step(),
        m.cells_distinct(),
        0 <= m.pack <= 4,
        0 <= addr,
    ensures
        m.put(addr, byte).in_step(),
{
    law_store_keeps_step(m, addr, byte);
    lemma_same_step(m.store(addr, byte), m.put(addr, byte));
}

/// A byte that was put at an address is read back wherever something holds it,
/// and every other such address reads what it read before.
pub proof fn law_put_reads_back(m: StateModel, at: int, byte: u8, addr: i32)
    requires
        m.backed(addr as int),
        m.cells_distinct(),
        0 <= m.pack <= 4,
    ensures
        m.put(at, byte).read(addr) == if at == addr {
            byte as i32
        } else {
            m.read(addr)
        },
        m.put(at, byte).backed(addr as int),
{
    let after = m.put(at, byte);
    assert(after.packed(addr as int) == m.packed(addr as int));
    if at >= 0 {
        let stored = m.store(at, byte);
        assert(stored.packed(addr as int) == m.packed(addr as int));
        if at == addr {
            if let Some((slot, off)) = m.packed(at) {
                state::lemma_splice(m.vars[slot], off, byte);
            }
        } else {
            law_store_leaves_other_bytes(m, at, byte, addr);
            assert(after.read(addr) == stored.read(addr));
        }
    }
}

/// A fill keeps the byte array in step with the packed cells.
pub proof fn law_fill_keeps_step(m: StateModel, from: int, to: int, byte: u8)
    requires
        m.in_step(),
        m.cells_distinct(),
        0 <= m.pack <= 4,
        0 <= from,
    ensures
        m.fill(from, to, byte).in_step(),
    decreases to - from,
{
    if from < to {
        let next = if from > i32::MAX {
            m.put(from, byte)
        } else {
            m.write(from as i32, byte as i32)
        };
        assert((byte as i32 & 0xFF) as u8 == byte) by (bit_vector);
        let noted = StateModel { write_log: next.write_log, ..m };
        lemma_same_step(m, noted);
        if EXTENDED_BASE <= from <= i32::MAX {
            lemma_same_step(noted, next);
        } else {
            lemma_put_keeps_step(noted, from, byte);
            assert(next == noted.put(from, byte));
        }
        law_fill_keeps_step(next, from + 1, to, byte);
    }
}

/// A copy keeps the byte array in step with the packed cells.
pub proof fn law_copy_keeps_step(m: StateModel, src: int, dst: int, count: int)
    requires
        m.in_step(),
        m.cells_distinct(),
        0 <= m.pack <= 4,
        0 <= dst,
    ensures
        m.copy(src, dst, count).in_step(),
    decreases count,
{
    if count > 0 {
        let byte = state::low_byte(m.read(src as i32));
        let read = m.after_read(src as i32);
        lemma_same_step(m, read);
        lemma_put_keeps_step(read, dst, byte);
        law_copy_keeps_step(read.put(dst, byte), src + 1, dst + 1, count - 1);
    }
}

/// After a fill every backed address of the range, as a byte or in the extended
/// table, reads the byte, and every such address outside it reads what it read
/// before.
pub proof fn law_fill_reads_back(m: StateModel, from: int, to: int, byte: u8, addr: i32)
    requires
        0 <= from <= to <= i32::MAX + 1,
        m.byte_backed(addr as int) || m.word_backed(addr as int),
        m.cells_distinct(),
        0 <= m.pack <= 4,
    ensures
        m.fill(from, to, byte).read(addr) == if from <= addr < to {
            byte as i32
        } else {
            m.read(addr)
        },
    decreases to - from,
{
    if from < to {
        let noted = StateModel {
            write_log: state::logged(m.write_log, from as i32, byte as i32),
            ..m
        };
        let next = m.write(from as i32, byte as i32);
        assert((byte as i32 & 0xFF) as u8 == byte) by (bit_vector);
        assert(noted.packed(addr as int) == m.packed(addr as int));
        assert(next.packed(addr as int) == m.packed(addr as int));
        assert(next.byte_backed(addr as int) || next.word_backed(addr as int));
        if from < EXTENDED_BASE {
            assert(next == noted.store(from, byte));
            if addr == from {
                lemma_store_reads_back(noted, addr, byte);
            } else {
                law_store_leaves_other_bytes(noted, from, byte, addr);
            }
        }
        law_fill_reads_back(next, from + 1, to, byte, addr);
    }
}

impl StateModel {
    /// The state after `byte` was written at every address of `from .. to` in turn.
    pub open spec fn written(self, from: int, to: int, byte: u8) -> StateModel
        decreases to - from,
    {
        if from >= to {
            self
        } else {
            self.write(from as i32, byte as i32).written(from + 1, to, byte)
        }
    }
}

/// A fill is a write of the byte at each address in turn, log and all.
pub proof fn law_fill_is_written(m: StateModel, from: int, to: int, byte: u8)
    requires
        0 <= from <= to <= i32::MAX + 1,
    ensures
        m.fill(from, to, byte) == m.written(from, to, byte),
    decreases to - from,
{
    if from < to {
        law_fill_is_written(m.write(from as i32, byte as i32), from + 1, to, byte);
    }
}

/// Filling is storing the byte at each address in turn: splitting the range
/// anywhere makes no difference.
pub proof fn law_fill_splits(m: StateModel, from: int, middle: int, to: int, byte: u8)
    requires
        from <= middle <= to,
    ensures
        m.fill(from, to, byte) == m.fill(from, middle, byte).fill(middle, to, byte),
    decreases middle - from,
{
    if from < middle {
        let next = if from > i32::MAX {
            m.put(from, byte)
        } else {
            m.write(from as i32, byte as i32)
        };
        law_fill_splits(next, from + 1, middle, to, byte);
    }
}

proof fn lemma_plain_read(m: StateModel, addr: i32)
    requires
        m.plain(),
        0 <= addr < EXTENDED_BASE,
        addr < m.memory.len(),
    ensures
        m.read(addr) == m.memory[addr as int],
        state::low_byte(m.read(addr)) == m.memory[addr as int],
{
    let b = m.memory[addr as int];
    assert((b as i32 & 0xFF) as u8 == b) by (bit_vector);
}

/// In plain memory a byte that was put is read back where something holds it,
/// and every other address reads what it read before.
proof fn lemma_plain_put(m: StateModel, at: int, byte: u8, addr: int)
    requires
        m.plain(),
        m.holds(at),
        m.holds(addr),
    ensures
        m.put(at, byte).read(addr as i32) == if at == addr {
            byte as i32
        } else {
            m.read(addr as i32)
        },
        m.put(at, byte).plain(),
        m.put(at, byte).memory.len() == m.memory.len(),
        state::low_byte(byte as i32) == byte,
{
    assert((byte as i32 & 0xFF) as u8 == byte) by (bit_vector);
}

/// What a copy in plain memory leaves at every address: the range that was
/// written repeats, with the distance of the two ranges as its period, the bytes
/// that the source held before. With distance at least the length that is the
/// plain copy; with a smaller distance a pattern is run out.
pub proof fn law_copy_repeats_source(m: StateModel, src: int, dst: int, count: int, addr: int)
    requires
        m.plain(),
        0 <= src < dst,
        0 <= count,
        forall|a: int| src <= a < dst + count ==> #[trigger] m.holds(a),
        m.holds(addr),
    ensures
        m.copy(src, dst, count).read(addr as i32) == if dst <= addr < dst + count {
            state::low_byte(m.read((src + (addr - dst) % (dst - src)) as i32)) as i32
        } else {
            m.read(addr as i32)
        },
    decreases count,
{
    let d = dst - src;
    if count > 0 {
        let byte = state::low_byte(m.read(src as i32));
        let read = m.after_read(src as i32);
        let next = read.put(dst, byte);
        assert(m.holds(src) && m.holds(dst));
        assert(read.holds(dst) && read.holds(addr));
        lemma_plain_put(read, dst, byte, addr);
        assert forall|a: int| src + 1 <= a < dst + count implies #[trigger] next.holds(a) by {
            assert(m.holds(a));
        }
        law_copy_repeats_source(next, src + 1, dst + 1, count - 1, addr);
        if dst < addr < dst + count {
            let k = addr - dst - 1;
            // Inductively the later part repeats `next` from `src + 1` on.
            vstd::arithmetic::div_mod::lemma_fundamental_div_mod(k, d);
            let r = k % d;
            assert(0 <= r < d);
            let from = src + 1 + r;
            assert(from < dst + 1);
            assert(m.holds(from));
            assert(read.holds(from));
            lemma_plain_put(read, dst, byte, from);
            if r == d - 1 {
                // The element read is the one just stored at `dst`.
                assert((k + 1) % d == 0) by {
                    vstd::arithmetic::div_mod::lemma_mod_multiples_vanish(k / d + 1, 0, d);
                    assert(k + 1 == d * (k / d + 1)) by (nonlinear_arith)
                        requires
                            k == d * (k / d) + r,
                            r == d - 1,
                    ;
                    vstd::arithmetic::div_mod::lemma_mod_multiples_basic(k / d + 1, d);
                    assert(d * (k / d + 1) == (k / d + 1) * d) by (nonlinear_arith);
                }
            } else {
                assert((k + 1) % d == r + 1) by {
                    vstd::arithmetic::div_mod::lemma_fundamental_div_mod_converse(
                        k + 1,
                        d,
                        k / d,
                        r + 1,
                    );
                }
            }
        } else if addr == dst {
            assert(0int % d == 0) by {
                vstd::arithmetic::div_mod::lemma_small_mod(0, d as nat);
            }
        }
    }
}

/// A copy whose destination does not reach into the source from above moves
/// every byte unchanged, and changes nothing outside the destination.
pub proof fn law_copy_disjoint(m: StateModel, src: int, dst: int, count: int, addr: int)
    requires
        m.plain(),
        0 <= src,
        0 <= count,
        0 <= dst,
        src + count <= dst || dst <= src,
        forall|a: int| src <= a < src + count ==> #[trigger] m.holds(a),
        forall|a: int| dst <= a < dst + count ==> #[trigger] m.holds(a),
        m.holds(addr),
    ensures
        m.copy(src, dst, count).read(addr as i32) == if dst <= addr < dst + count {
            state::low_byte(m.read((src + (addr - dst)) as i32)) as i32
        } else {
            m.read(addr as i32)
        },
    decreases count,
{
    if count > 0 {
        let byte = state::low_byte(m.read(src as i32));
        let read = m.after_read(src as i32);
        let next = read.put(dst, byte);
        assert(m.holds(src) && m.holds(dst));
        assert(read.holds(dst) && read.holds(addr));
        lemma_plain_put(read, dst, byte, addr);
        assert forall|a: int| src + 1 <= a < src + count implies #[trigger] next.holds(a) by {
            assert(m.holds(a));
        }
        assert forall|a: int| dst + 1 <= a < dst + count implies #[trigger] next.holds(a) by {
            assert(m.holds(a));
        }
        law_copy_disjoint(next, src + 1, dst + 1, count - 1, addr);
        if dst < addr < dst + count {
            let from = src + (addr - dst);
            assert(m.holds(from));
            assert(read.holds(from));
            lemma_plain_put(read, dst, byte, from);
        }
    }
}

/// The word that one packed cell holds is the little-endian word of its two
/// bytes: reading it whole and reading it byte by byte agree, and leave the same trace in
/// the read log.
pub proof fn law_packed_word_is_two_bytes(m: StateModel, addr: i32)
    requires
        m.packed_word(addr) is Some,
    ensures
        m.read16(addr) == m.read(addr) + 256 * m.read((addr + 1) as i32),
        m.after_read16(addr) == m.after_read(addr).after_read((addr + 1) as i32),
{
    let (slot, off) = m.packed(addr as int)->0;
    let cell = m.vars[slot];
    assert(off == 0);
    assert((addr + 1) / 2 == addr as int / 2);
    assert((addr + 1) % 2 == 1);
    assert(m.packed(addr + 1) == Some((slot, 1int)));
    assert((cell & 0xFFFF) == ((cell >> 0u32) & 0xFF) + 256 * ((cell >> 8u32) & 0xFF))
        by (bit_vector);
    assert((cell & 0xFFFF) & 0xFF == (cell >> 0u32) & 0xFF && ((cell & 0xFFFF) >> 8u32) & 0xFF == (
    cell >> 8u32) & 0xFF) by (bit_vector);
}

/// Little-endian words of plain bytes: a word read is the low byte plus 256
/// times the high byte.
pub proof fn law_word_is_two_bytes(m: StateModel, addr: i32)
    requires
        m.plain(),
        0 <= addr,
        addr + 1 < m.memory.len(),
        addr + 1 < EXTENDED_BASE,
    ensures
        m.read16(addr) == m.memory[addr as int] + 256 * m.memory[addr + 1],
{
    lemma_plain_read(m, addr);
    lemma_plain_read(m, (addr + 1) as i32);
}

/// Reading never changes what is stored: only the read log grows.
pub proof fn law_reads_change_nothing(m: StateModel, addr: i32, other: i32)
    ensures
        m.after_read(addr).read(other) == m.read(other),
        m.after_read16(addr).read(other) == m.read(other),
        (StateModel { read_log: m.read_log, ..m.after_read(addr) }) == m,
        (StateModel { read_log: m.read_log, ..m.after_read16(addr) }) == m,
{
}

/// Exact sum of the edges behind one gate.
pub open spec fn gate_total(edges: Seq<EdgeModel>, gate: (Seq<char>, Seq<char>)) -> int
    decreases edges.len(),
{
    if edges.len() == 0 {
        0
    } else {
        gate_total(edges.drop_last(), gate) + if edges.last().gate == gate {
            edges.last().value as int
        } else {
            0
        }
    }
}

/// Exact sum of the edges behind all active gates.
pub open spec fn active_total(edges: Seq<EdgeModel>, active: Seq<(Seq<char>, Seq<char>)>) -> int
    decreases active.len(),
{
    if active.len() == 0 {
        0
    } else {
        active_total(edges, active.drop_last()) + gate_total(edges, active.last())
    }
}

/// Does every partial sum of the edges behind one gate fit, counted from
/// `start`?
pub open spec fn gate_sums_fit(
    edges: Seq<EdgeModel>,
    gate: (Seq<char>, Seq<char>),
    start: int,
) -> bool {
    forall|n: int|
        0 <= n <= edges.len() ==> i32::MIN <= start + #[trigger] gate_total(edges.take(n), gate)
            <= i32::MAX
}

/// Does every partial sum of the edges behind the active gates fit?
pub open spec fn active_sums_fit(
    edges: Seq<EdgeModel>,
    active: Seq<(Seq<char>, Seq<char>)>,
) -> bool {
    forall|g: int|
        0 <= g < active.len() ==> gate_sums_fit(
            edges,
            #[trigger] active[g],
            active_total(edges, active.take(g)),
        )
}

proof fn lemma_gate_sum(edges: Seq<EdgeModel>, gate: (Seq<char>, Seq<char>), start: i32)
    requires
        gate_sums_fit(edges, gate, start as int),
    ensures
        state::gate_sum(edges, gate, start) == start + gate_total(edges, gate),
    decreases edges.len(),
{
    if edges.len() > 0 {
        let rest = edges.drop_last();
        assert forall|n: int| 0 <= n <= rest.len() implies i32::MIN <= start
            + #[trigger] gate_total(rest.take(n), gate) <= i32::MAX by {
            assert(rest.take(n) =~= edges.take(n));
        }
        lemma_gate_sum(rest, gate, start);
        assert(edges.take(edges.len() as int) =~= edges);
        assert(i32::MIN <= start + gate_total(edges, gate) <= i32::MAX);
    }
}

/// A driven variable is the exact sum of its active edges, as long as no
/// partial sum leaves the range of a variable.
pub proof fn law_gates_sum_exactly(edges: Seq<EdgeModel>, active: Seq<(Seq<char>, Seq<char>)>)
    requires
        active_sums_fit(edges, active),
    ensures
        state::active_sum(edges, active) == active_total(edges, active),
    decreases active.len(),
{
    if active.len() > 0 {
        let rest = active.drop_last();
        assert forall|g: int| 0 <= g < rest.len() implies gate_sums_fit(
            edges,
            #[trigger] rest[g],
            active_total(edges, rest.take(g)),
        ) by {
            assert(rest[g] == active[g]);
            assert(rest.take(g) =~= active.take(g));
        }
        law_gates_sum_exactly(edges, rest);
        assert(active[active.len() - 1] == active.last());
        assert(active.take(active.len() - 1) =~= rest);
        lemma_gate_sum(edges, active.last(), state::active_sum(edges, rest));
    }
}

/// A gate that is switched on and off again leaves the set of active gates as
/// it was.
pub proof fn law_gate_on_off(m: StateModel, gate: (Seq<char>, Seq<char>))
    requires
        m.active.no_duplicates(),
        !m.active.contains(gate),
    ensures
        m.with_gate(gate, true).gate_active(gate),
        m.with_gate(gate, true).with_gate(gate, false).active == m.active,
{
    let on = m.active.push(gate);
    assert(on[m.active.len() as int] == gate);
    assert(on.contains(gate));
    let at = on.index_of(gate);
    assert(at == m.active.len()) by {
        if at < m.active.len() {
            assert(m.active[at] == gate);
        }
    }
    assert(on.remove(at) =~= m.active);
}

/// After a report that gate is as reported, and reporting it again changes
/// nothing.
pub proof fn law_gate_report_holds(m: StateModel, gate: (Seq<char>, Seq<char>), on: bool)
    requires
        m.active.no_duplicates(),
    ensures
        m.with_gate(gate, on).gate_active(gate) == on,
        m.with_gate(gate, on).with_gate(gate, on) == m.with_gate(gate, on),
{
    let after = m.with_gate(gate, on);
    if m.active.contains(gate) != on {
        if on {
            assert(after.active[m.active.len() as int] == gate);
        } else {
            let at = m.active.index_of(gate);
            assert(m.active[at] == gate);
            if after.active.contains(gate) {
                let i = choose|i: int| 0 <= i < after.active.len() && after.active[i] == gate;
                let j = if i < at {
                    i
                } else {
                    i + 1
                };
                assert(m.active[j] == gate);
            }
        }
    }
}

} // verus!

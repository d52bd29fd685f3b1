//! Machine state: variables, memory, and the tables that map one to the other.

use crate::fx;
use crate::tables::StringTable;
use rustc_hash::FxHashMap;
use std::sync::Arc;
use vstd::hash_map::StringHashMap;
use crate::text;
use vstd::prelude::*;

pub use crate::delta::StateDelta;

verus! {

/// Memory size of a freshly made state, in bytes.
pub const DEFAULT_MEM_SIZE: usize = 0x600;

/// Linear address of the first DAC palette entry in extended memory.
pub const VGA_DAC_LINEAR: i32 = 0x100000;

/// First linear address that lives in the extended table rather than in the
/// byte array.
pub const EXTENDED_BASE: i32 = 0xF0000;

/// The complete machine state.
///
/// Negative addresses name state variables (`-1` is the first), addresses below
/// [`EXTENDED_BASE`] name bytes, and addresses from there on name words of the
/// extended table.
pub struct State {
    /// Values of the state variables, in declaration order.
    pub state_vars: Vec<i32>,
    /// Names of the state variables, without their leading dashes.
    pub state_var_names: Vec<String>,
    /// Position of each name in `state_var_names`.
    pub state_var_index: StringHashMap<usize>,
    /// Byte-addressed memory.
    pub memory: Vec<u8>,
    /// Words at addresses from [`EXTENDED_BASE`] on.
    pub extended: FxHashMap<i32, i32>,
    /// Values of string properties (e.g. `--textBuffer`).
    pub string_properties: StringTable,
    /// Number of ticks evaluated so far.
    pub frame_counter: u32,
    /// When present, every logged read appends `(address, value)`.
    pub read_log: Option<Vec<(i32, i32)>>,
    /// When present, every `write_mem` appends `(address, value)`.
    pub write_log: Option<Vec<(i32, i32)>>,
    /// State-variable address of each packed cell; 0 where there is none.
    pub packed_cell_table: Vec<i32>,
    /// Bytes per packed cell; 0 means that memory is not packed.
    pub packed_cell_size: u8,
    /// A window of addresses that reads through a key variable.
    pub windowed_byte_array: Option<WindowedByteArray>,
    /// Pseudo-class gates that the host reports as active, as
    /// `(pseudo, selector)` pairs in the order they became active.
    pub pseudo_active: Vec<(String, String)>,
    /// Input edges, grouped by the variable they drive.
    pub input_edge_groups: Vec<InputEdgeGroup>,
}

/// All input edges that drive one variable.
#[derive(Debug)]
pub struct InputEdgeGroup {
    /// The variable that every edge of the group writes.
    pub slot: usize,
    /// The edges.
    pub edges: Vec<InputEdgeGroupEntry>,
}

/// One gated value: it counts while its `(pseudo, selector)` gate is active.
#[derive(Debug)]
pub struct InputEdgeGroupEntry {
    pub pseudo: String,
    pub selector: String,
    pub value: i32,
}

/// A window of bytes addressed by an in-memory key: a read inside the window
/// multiplies the key variable by `stride`, adds the offset into the window and
/// indexes a flat byte array.
#[derive(Debug)]
pub struct WindowedByteArray {
    /// First linear address inside the window.
    pub window_base: i32,
    /// One past the last linear address inside the window.
    pub window_end: i32,
    /// State variable that holds the key.
    pub key_cell_slot: usize,
    /// Multiplier of the key.
    pub stride: i32,
    /// Key of `byte_array[0]`.
    pub byte_array_base_key: i32,
    /// The bytes.
    pub byte_array: Arc<Vec<i32>>,
}

// ---------------------------------------------------------------------------
// Mathematical values
// ---------------------------------------------------------------------------

/// The value of a [`WindowedByteArray`].
#[verifier::ext_equal]
pub struct WindowModel {
    pub base: i32,
    pub end: i32,
    pub key_slot: int,
    pub stride: i32,
    pub base_key: i32,
    pub bytes: Seq<i32>,
}

/// The value of an [`InputEdgeGroup`].
#[verifier::ext_equal]
pub struct GroupModel {
    pub slot: int,
    pub edges: Seq<EdgeModel>,
}

/// The value of an [`InputEdgeGroupEntry`].
#[verifier::ext_equal]
pub struct EdgeModel {
    pub gate: (Seq<char>, Seq<char>),
    pub value: i32,
}

/// The value of a [`State`].
#[verifier::ext_equal]
pub struct StateModel {
    pub vars: Seq<i32>,
    pub names: Seq<Seq<char>>,
    pub memory: Seq<u8>,
    pub extended: Map<i32, i32>,
    pub strings: Map<Seq<char>, Seq<char>>,
    pub frame: u32,
    pub read_log: Option<Seq<(i32, i32)>>,
    pub write_log: Option<Seq<(i32, i32)>>,
    pub cells: Seq<i32>,
    pub pack: int,
    pub window: Option<WindowModel>,
    pub active: Seq<(Seq<char>, Seq<char>)>,
    pub groups: Seq<GroupModel>,
}

/// Position of the last occurrence of `name`.
pub open spec fn last_index(names: Seq<Seq<char>>, name: Seq<char>) -> Option<int>
    decreases names.len(),
{
    if names.len() == 0 {
        None
    } else if names.last() == name {
        Some(names.len() - 1)
    } else {
        last_index(names.drop_last(), name)
    }
}

/// Byte `off` of a packed cell, counted from the low end.
pub open spec fn cell_byte(cell: i32, off: int) -> i32 {
    (cell >> ((8 * off) as u32)) & 0xFFi32
}

/// The low byte of a value.
pub open spec fn low_byte(value: i32) -> u8 {
    (value & 0xFF) as u8
}

/// A packed cell with byte `off` replaced.
pub open spec fn spliced(cell: i32, off: int, byte: u8) -> i32 {
    (cell & !(0xFFi32 << ((8 * off) as u32))) | ((byte as i32) << ((8 * off) as u32))
}

/// A log with one more entry, if there is a log.
pub open spec fn logged(log: Option<Seq<(i32, i32)>>, addr: i32, value: i32) -> Option<
    Seq<(i32, i32)>,
> {
    match log {
        Some(s) => Some(s.push((addr, value))),
        None => None,
    }
}

/// The value of a log.
pub open spec fn log_view(log: Option<Vec<(i32, i32)>>) -> Option<Seq<(i32, i32)>> {
    match log {
        Some(v) => Some(v@),
        None => None,
    }
}

impl WindowedByteArray {
    /// The value of a window.
    pub open spec fn view(&self) -> WindowModel {
        WindowModel {
            base: self.window_base,
            end: self.window_end,
            key_slot: self.key_cell_slot as int,
            stride: self.stride,
            base_key: self.byte_array_base_key,
            bytes: self.byte_array@,
        }
    }
}

impl InputEdgeGroupEntry {
    /// The value of an edge.
    pub open spec fn view(&self) -> EdgeModel {
        EdgeModel { gate: (self.pseudo@, self.selector@), value: self.value }
    }
}

impl InputEdgeGroup {
    /// The value of a group.
    pub open spec fn view(&self) -> GroupModel {
        GroupModel {
            slot: self.slot as int,
            edges: Seq::new(self.edges@.len(), |i: int| self.edges@[i].view()),
        }
    }
}

impl WindowModel {
    /// Is `addr` inside the window?
    pub open spec fn has(self, addr: int) -> bool {
        self.base <= addr < self.end
    }

    /// What the window holds at `addr` while its key variable holds `key`.
    pub open spec fn byte_at(self, key: i32, addr: i32) -> i32 {
        let index = key.wrapping_mul(self.stride).wrapping_add(
            addr.wrapping_sub(self.base),
        ).wrapping_sub(self.base_key);
        if 0 <= index < self.bytes.len() {
            self.bytes[index as int]
        } else {
            0
        }
    }
}

impl StateModel {
    /// A state without variables and with `mem_size` zero bytes.
    pub open spec fn fresh(mem_size: nat) -> StateModel {
        StateModel {
            vars: Seq::empty(),
            names: Seq::empty(),
            memory: Seq::new(mem_size, |i: int| 0u8),
            extended: Map::empty(),
            strings: Map::empty(),
            frame: 0,
            read_log: None,
            write_log: None,
            cells: Seq::empty(),
            pack: 0,
            window: None,
            active: Seq::empty(),
            groups: Seq::empty(),
        }
    }

    /// Position of the variable `name`: its last declaration counts.
    pub open spec fn slot(self, name: Seq<char>) -> Option<int> {
        last_index(self.names, name)
    }

    /// Value of the variable `name`.
    pub open spec fn var(self, name: Seq<char>) -> Option<i32> {
        match self.slot(name) {
            Some(i) => Some(self.vars[i]),
            None => None,
        }
    }

    /// The state with the variable `name` set; nothing changes if there is no
    /// such variable.
    pub open spec fn with_var(self, name: Seq<char>, value: i32) -> StateModel {
        match self.slot(name) {
            Some(i) => StateModel { vars: self.vars.update(i, value), ..self },
            None => self,
        }
    }

    /// The variable that packs the byte at `addr`, and the byte's place in it.
    pub open spec fn packed(self, addr: int) -> Option<(int, int)> {
        if addr >= 0 && self.pack > 0 && addr / self.pack < self.cells.len() && self.cells[addr
            / self.pack] < 0 && -(self.cells[addr / self.pack] + 1) < self.vars.len() {
            Some((-(self.cells[addr / self.pack] + 1), addr % self.pack))
        } else {
            None
        }
    }

    /// What is stored at `addr`.
    pub open spec fn read(self, addr: i32) -> i32 {
        if addr < 0 {
            if -(addr + 1) < self.vars.len() {
                self.vars[-(addr + 1)]
            } else {
                0
            }
        } else {
            match self.packed(addr as int) {
                Some((slot, off)) => cell_byte(self.vars[slot], off),
                None => if self.window is Some && self.window->0.has(addr as int) {
                    let key = if self.window->0.key_slot < self.vars.len() {
                        self.vars[self.window->0.key_slot]
                    } else {
                        0
                    };
                    self.window->0.byte_at(key, addr)
                } else if addr >= EXTENDED_BASE {
                    if self.extended.contains_key(addr) {
                        self.extended[addr]
                    } else {
                        0
                    }
                } else if addr < self.memory.len() {
                    self.memory[addr as int] as i32
                } else {
                    0
                },
            }
        }
    }

    /// The state after one read of `addr`: the read log, if there is one, holds what was
    /// read.
    pub open spec fn after_read(self, addr: i32) -> StateModel {
        StateModel { read_log: logged(self.read_log, addr, self.read(addr)), ..self }
    }

    /// The variable that holds the whole word at `addr`, if one packed cell
    /// does.
    pub open spec fn packed_word(self, addr: i32) -> Option<int> {
        if addr >= 0 && self.pack == 2 && addr % 2 == 0 && self.packed(addr as int) is Some {
            Some((self.packed(addr as int)->0).0)
        } else {
            None
        }
    }

    /// The little-endian word at `addr`.
    pub open spec fn read16(self, addr: i32) -> i32 {
        match self.packed_word(addr) {
            Some(slot) => self.vars[slot] & 0xFFFF,
            None => self.read(addr).wrapping_add(
                self.read(addr.wrapping_add(1)).wrapping_mul(256),
            ),
        }
    }

    /// The state after one read of the word at `addr`.
    pub open spec fn after_read16(self, addr: i32) -> StateModel {
        match self.packed_word(addr) {
            Some(slot) => StateModel {
                read_log: logged(
                    logged(self.read_log, addr, (self.vars[slot] & 0xFFFF) & 0xFF),
                    addr.wrapping_add(1),
                    ((self.vars[slot] & 0xFFFF) >> 8u32) & 0xFF,
                ),
                ..self
            },
            None => self.after_read(addr).after_read(addr.wrapping_add(1)),
        }
    }

    /// The state with one byte stored at `addr`: in the byte array, and in the
    /// packed cell that covers it.
    pub open spec fn store(self, addr: int, byte: u8) -> StateModel {
        StateModel {
            memory: if 0 <= addr < self.memory.len() {
                self.memory.update(addr, byte)
            } else {
                self.memory
            },
            vars: match self.packed(addr) {
                Some((slot, off)) => self.vars.update(slot, spliced(self.vars[slot], off, byte)),
                None => self.vars,
            },
            ..self
        }
    }

    /// Where a value written at `addr` goes, logs aside.
    pub open spec fn assign(self, addr: i32, value: i32) -> StateModel {
        if addr < 0 {
            if -(addr + 1) < self.vars.len() {
                StateModel { vars: self.vars.update(-(addr + 1), value), ..self }
            } else {
                self
            }
        } else if addr >= EXTENDED_BASE {
            StateModel { extended: self.extended.insert(addr, value), ..self }
        } else {
            self.store(addr as int, low_byte(value))
        }
    }

    /// The state after writing `value` at `addr`.
    pub open spec fn write(self, addr: i32, value: i32) -> StateModel {
        StateModel { write_log: logged(self.write_log, addr, value), ..self }.assign(addr, value)
    }

    /// The state with one byte of guest memory stored at a linear address: in the
    /// byte array and in the packed cell that covers it. From [`EXTENDED_BASE`]
    /// on, where no packed cell does, the extended table holds it too, as far as
    /// that has addresses.
    pub open spec fn put(self, addr: int, byte: u8) -> StateModel {
        if addr < 0 {
            self
        } else if EXTENDED_BASE <= addr <= i32::MAX && self.packed(addr) is None {
            StateModel {
                extended: self.extended.insert(addr as i32, byte as i32),
                ..self.store(addr, byte)
            }
        } else {
            self.store(addr, byte)
        }
    }

    /// The state with `byte` written at every address of `from .. to`, lowest
    /// first; beyond the 32-bit range, where nothing can be written, it is put.
    pub open spec fn fill(self, from: int, to: int, byte: u8) -> StateModel
        decreases to - from,
    {
        if from >= to {
            self
        } else if from > i32::MAX {
            self.put(from, byte).fill(from + 1, to, byte)
        } else {
            self.write(from as i32, byte as i32).fill(from + 1, to, byte)
        }
    }

    /// The state with `byte` put at every linear address of `from .. to`, lowest
    /// first.
    pub open spec fn put_all(self, from: int, to: int, byte: u8) -> StateModel
        decreases to - from,
    {
        if from >= to {
            self
        } else {
            self.put(from, byte).put_all(from + 1, to, byte)
        }
    }

    /// The state after copying `count` bytes one at a time, lowest address
    /// first: a byte that an earlier step stored is read back by a later one.
    pub open spec fn copy(self, src: int, dst: int, count: int) -> StateModel
        decreases count,
    {
        if count <= 0 {
            self
        } else {
            self.after_read(src as i32).put(dst, low_byte(self.read(src as i32))).copy(
                src + 1,
                dst + 1,
                count - 1,
            )
        }
    }

    /// Is this gate active?
    pub open spec fn gate_active(self, gate: (Seq<char>, Seq<char>)) -> bool {
        self.active.contains(gate)
    }
}

/// Sum of the edges behind one gate, saturating at each step.
pub open spec fn gate_sum(edges: Seq<EdgeModel>, gate: (Seq<char>, Seq<char>), start: i32) -> i32
    decreases edges.len(),
{
    if edges.len() == 0 {
        start
    } else {
        let before = gate_sum(edges.drop_last(), gate, start);
        if edges.last().gate == gate {
            saturating_sum(before, edges.last().value)
        } else {
            before
        }
    }
}

/// Sum of the edges behind all active gates, gate by gate.
pub open spec fn active_sum(edges: Seq<EdgeModel>, active: Seq<(Seq<char>, Seq<char>)>) -> i32
    decreases active.len(),
{
    if active.len() == 0 {
        0
    } else {
        gate_sum(edges, active.last(), active_sum(edges, active.drop_last()))
    }
}

/// Addition clamped to the 32-bit range.
pub open spec fn saturating_sum(a: i32, b: i32) -> i32 {
    crate::number::clamped(a + b, i32::MIN as int, i32::MAX as int) as i32
}

/// The variables after the first `n` groups took the sums of their active
/// edges.
pub open spec fn driven(
    vars: Seq<i32>,
    groups: Seq<GroupModel>,
    active: Seq<(Seq<char>, Seq<char>)>,
) -> Seq<i32>
    decreases groups.len(),
{
    if groups.len() == 0 {
        vars
    } else {
        let before = driven(vars, groups.drop_last(), active);
        if groups.last().slot < vars.len() {
            before.update(groups.last().slot, active_sum(groups.last().edges, active))
        } else {
            before
        }
    }
}

impl StateModel {
    /// The state after the host reported a gate. A report that changes nothing
    /// has no effect; otherwise every group's variable takes the sum of its
    /// active edges.
    pub open spec fn with_gate(self, gate: (Seq<char>, Seq<char>), on: bool) -> StateModel {
        if self.active.contains(gate) == on {
            self
        } else {
            let active = if on {
                self.active.push(gate)
            } else {
                self.active.remove(self.active.index_of(gate))
            };
            StateModel { active, vars: driven(self.vars, self.groups, active), ..self }
        }
    }
}

impl StateModel {
    /// The state after a key was appended to the keyboard ring buffer: its two
    /// bytes are stored at the tail, and the tail moves on by one entry, past
    /// the end back to the start, unless it would run into the head.
    pub open spec fn with_key(self, key: i32) -> StateModel {
        let tail = self.read16(0x41C);
        let a = self.after_read16(0x41C);
        let end = a.read16(0x482);
        let b = a.after_read16(0x482);
        let start = b.read16(0x480);
        let c = b.after_read16(0x480);
        let linear = tail.wrapping_add(0x400);
        let d = c.write(linear, key & 0xFF).write(linear.wrapping_add(1), (key >> 8u32) & 0xFF);
        let next = if tail.wrapping_add(2) >= end {
            start
        } else {
            tail.wrapping_add(2)
        };
        let head = d.read16(0x41A);
        let e = d.after_read16(0x41A);
        if next != head {
            e.write(0x41C, next & 0xFF).write(0x41D, (next >> 8u32) & 0xFF)
        } else {
            e
        }
    }
}

// ---------------------------------------------------------------------------
// Facts about the model
// ---------------------------------------------------------------------------

/// A found position is a position of the name.
pub proof fn lemma_last_index(names: Seq<Seq<char>>, name: Seq<char>)
    ensures
        match last_index(names, name) {
            Some(i) => 0 <= i < names.len() && names[i] == name && forall|j: int|
                i < j < names.len() ==> names[j] != name,
            None => forall|j: int| 0 <= j < names.len() ==> names[j] != name,
        },
    decreases names.len(),
{
    if names.len() > 0 && names.last() != name {
        lemma_last_index(names.drop_last(), name);
        let rest = names.drop_last();
        assert forall|j: int| 0 <= j < rest.len() implies names[j] == rest[j] by {}
    }
}

/// Splicing a byte in and reading it back gives that byte, and leaves the other
/// bytes of the cell alone.
pub proof fn lemma_splice(cell: i32, off: int, byte: u8)
    requires
        0 <= off < 4,
    ensures
        cell_byte(spliced(cell, off, byte), off) == byte,
        forall|o: int|
            0 <= o < 4 && o != off ==> #[trigger] cell_byte(spliced(cell, off, byte), o)
                == cell_byte(cell, o),
{
    let s = (8 * off) as u32;
    assert((((cell & !(0xFFi32 << s)) | ((byte as i32) << s)) >> s) & 0xFFi32 == byte as i32)
        by (bit_vector)
        requires
            s == 0 || s == 8 || s == 16 || s == 24,
    ;
    assert forall|o: int| 0 <= o < 4 && o != off implies #[trigger] cell_byte(
        spliced(cell, off, byte),
        o,
    ) == cell_byte(cell, o) by {
        let t = (8 * o) as u32;
        assert((((cell & !(0xFFi32 << s)) | ((byte as i32) << s)) >> t) & 0xFFi32 == (cell >> t)
            & 0xFFi32) by (bit_vector)
            requires
                s == 0 || s == 8 || s == 16 || s == 24,
                t == 0 || t == 8 || t == 16 || t == 24,
                s != t,
        ;
    }
}

impl StateModel {
    /// A byte outside the array and outside every packed cell is dropped.
    proof fn lemma_store_outside(self, addr: int, byte: u8)
        requires
            addr >= self.memory.len(),
            self.packed(addr) is None,
        ensures
            self.store(addr, byte) == self,
    {
    }

    /// Filling beyond all addresses, the array and the packed cells changes
    /// nothing.
    proof fn lemma_fill_outside(self, from: int, to: int, byte: u8)
        requires
            from > i32::MAX,
            from >= self.memory.len(),
            self.pack > 0 ==> from / self.pack >= self.cells.len(),
        ensures
            self.fill(from, to, byte) == self,
        decreases to - from,
    {
        if from < to {
            self.lemma_store_outside(from, byte);
            if self.pack > 0 {
                vstd::arithmetic::div_mod::lemma_div_is_ordered(from, from + 1, self.pack);
            }
            self.lemma_fill_outside(from + 1, to, byte);
        }
    }

    /// Copying bytes moves no boundary.
    pub proof fn lemma_copy_shape(self, src: int, dst: int, count: int)
        ensures
            self.copy(src, dst, count).vars.len() == self.vars.len(),
            self.copy(src, dst, count).memory.len() == self.memory.len(),
            (StateModel {
                vars: self.vars,
                memory: self.memory,
                extended: self.extended,
                read_log: self.read_log,
                ..self.copy(src, dst, count)
            }) == self,
        decreases count,
    {
        if count > 0 {
            self.after_read(src as i32).put(dst, low_byte(self.read(src as i32))).lemma_copy_shape(
                src + 1,
                dst + 1,
                count - 1,
            );
        }
    }
}

// ---------------------------------------------------------------------------
// Access
// ---------------------------------------------------------------------------

impl State {
    /// The value of a state.
    pub open spec fn view(&self) -> StateModel {
        StateModel {
            vars: self.state_vars@,
            names: text::views(self.state_var_names@),
            memory: self.memory@,
            extended: self.extended@,
            strings: self.string_properties@,
            frame: self.frame_counter,
            read_log: log_view(self.read_log),
            write_log: log_view(self.write_log),
            cells: self.packed_cell_table@,
            pack: self.packed_cell_size as int,
            window: match self.windowed_byte_array {
                Some(w) => Some(w.view()),
                None => None,
            },
            active: crate::tables::pairs_view(self.pseudo_active@),
            groups: Seq::new(
                self.input_edge_groups@.len(),
                |i: int| self.input_edge_groups@[i].view(),
            ),
        }
    }

    /// Every variable has a name, the lookup table finds the last variable of
    /// each name, a packed cell is no wider than a variable, and no gate is
    /// active twice.
    pub open spec fn wf(&self) -> bool {
        &&& self.state_var_names@.len() == self.state_vars@.len()
        &&& self.index_wf()
        &&& self.packed_cell_size <= 4
        &&& self.string_properties.wf()
        &&& self.view().active.no_duplicates()
    }

    /// The lookup table finds the last variable of each name.
    pub open spec fn index_wf(&self) -> bool {
        forall|name: Seq<char>|
            #![trigger self.state_var_index@.contains_key(name)]
            #![trigger last_index(text::views(self.state_var_names@), name)]
            match last_index(text::views(self.state_var_names@), name) {
                Some(i) => self.state_var_index@.contains_key(name)
                    && self.state_var_index@[name] == i,
                None => !self.state_var_index@.contains_key(name),
            }
    }

    /// Creates a state without variables and with `mem_size` zero bytes.
    pub fn new(mem_size: usize) -> (r: State)
        ensures
            r.wf(),
            r@ == StateModel::fresh(mem_size as nat),
    {
        let memory: Vec<u8> = vec![0; mem_size];
        let r = State {
            state_vars: Vec::new(),
            state_var_names: Vec::new(),
            state_var_index: StringHashMap::new(),
            memory,
            extended: FxHashMap::default(),
            string_properties: StringTable::new(),
            frame_counter: 0,
            read_log: None,
            write_log: None,
            packed_cell_table: Vec::new(),
            packed_cell_size: 0,
            windowed_byte_array: None,
            pseudo_active: Vec::new(),
            input_edge_groups: Vec::new(),
        };
        assert(r@.memory =~= Seq::new(mem_size as nat, |i: int| 0u8));
        assert(r@.names =~= Seq::<Seq<char>>::empty());
        assert(r@.active =~= Seq::<(Seq<char>, Seq<char>)>::empty());
        assert(r@.groups =~= Seq::<GroupModel>::empty());
        r
    }

    /// Position of the variable `name`.
    pub fn var_slot(&self, name: &str) -> (r: Option<usize>)
        requires
            self.wf(),
        ensures
            match r {
                Some(i) => self@.slot(name@) == Some(i as int) && i < self.state_vars@.len(),
                None => self@.slot(name@) is None,
            },
    {
        proof {
            lemma_last_index(self@.names, name@);
        }
        match self.state_var_index.get(name) {
            Some(i) => Some(*i),
            None => None,
        }
    }

    /// Value of the variable `name`.
    pub fn get_var(&self, name: &str) -> (r: Option<i32>)
        requires
            self.wf(),
        ensures
            r == self@.var(name@),
    {
        match self.var_slot(name) {
            Some(i) => Some(self.state_vars[i]),
            None => None,
        }
    }

    /// Sets the variable `name`; says whether there is one.
    pub fn set_var(&mut self, name: &str, value: i32) -> (r: bool)
        requires
            old(self).wf(),
        ensures
            final(self).wf(),
            r == old(self)@.slot(name@) is Some,
            final(self)@ == old(self)@.with_var(name@, value),
    {
        match self.var_slot(name) {
            Some(i) => {
                self.state_vars.set(i, value);
                true
            },
            None => false,
        }
    }

    /// Number of state variables.
    pub fn state_var_count(&self) -> (r: usize)
        ensures
            r == self@.vars.len(),
    {
        self.state_vars.len()
    }

    fn gate_position(&self, pseudo: &str, selector: &str) -> (r: Option<usize>)
        requires
            self.wf(),
        ensures
            match r {
                Some(i) => i < self.pseudo_active@.len() && self@.active[i as int] == (
                    pseudo@,
                    selector@,
                ) && i == self@.active.index_of((pseudo@, selector@)),
                None => !self@.active.contains((pseudo@, selector@)),
            },
    {
        let p: String = pseudo.to_string();
        let s: String = selector.to_string();
        let mut i: usize = 0;
        while i < self.pseudo_active.len()
            invariant
                i <= self.pseudo_active@.len(),
                self.wf(),
                p@ == pseudo@,
                s@ == selector@,
                forall|j: int| 0 <= j < i ==> self@.active[j] != (pseudo@, selector@),
            decreases self.pseudo_active@.len() - i,
        {
            if self.pseudo_active[i].0 == p && self.pseudo_active[i].1 == s {
                assert(self@.active[i as int] == (pseudo@, selector@));
                assert(self@.active.contains((pseudo@, selector@)));
                return Some(i);
            }
            i += 1;
        }
        assert(!self@.active.contains((pseudo@, selector@)));
        None
    }

    /// Is this gate `(pseudo, selector)` active?
    pub fn pseudo_class_active(&self, pseudo: &str, selector: &str) -> (r: bool)
        requires
            self.wf(),
        ensures
            r == self@.gate_active((pseudo@, selector@)),
    {
        self.pseudo_class_active_pair(pseudo, selector)
    }

    /// Is this gate `(pseudo, selector)` active?
    pub fn pseudo_class_active_pair(&self, pseudo: &str, selector: &str) -> (r: bool)
        requires
            self.wf(),
        ensures
            r == self@.gate_active((pseudo@, selector@)),
    {
        if self.pseudo_active.is_empty() {
            return false;
        }
        self.gate_position(pseudo, selector).is_some()
    }

    /// Sum of the edges behind all active gates.
    fn sum_of_active(&self, group: usize) -> (r: i32)
        requires
            group < self.input_edge_groups@.len(),
        ensures
            r == active_sum(self@.groups[group as int].edges, self@.active),
    {
        let edges: &Vec<InputEdgeGroupEntry> = &self.input_edge_groups[group].edges;
        let ghost model = self@.groups[group as int].edges;
        let ghost gates = self@.active;
        let mut sum: i32 = 0;
        let mut a: usize = 0;
        while a < self.pseudo_active.len()
            invariant
                a <= self.pseudo_active@.len(),
                gates == self@.active,
                model == self@.groups[group as int].edges,
                group < self.input_edge_groups@.len(),
                *edges == self.input_edge_groups@[group as int].edges,
                sum == active_sum(model, gates.subrange(0, a as int)),
            decreases self.pseudo_active@.len() - a,
        {
            let ghost start = sum;
            let ghost gate = gates[a as int];
            assert(model.subrange(0, 0) =~= Seq::<EdgeModel>::empty());
            let mut e: usize = 0;
            while e < edges.len()
                invariant
                    a < self.pseudo_active@.len(),
                    gates == self@.active,
                    gate == gates[a as int],
                    model == self@.groups[group as int].edges,
                    group < self.input_edge_groups@.len(),
                    *edges == self.input_edge_groups@[group as int].edges,
                    e <= edges@.len(),
                    sum == gate_sum(model.subrange(0, e as int), gate, start),
                decreases edges@.len() - e,
            {
                let same = edges[e].pseudo == self.pseudo_active[a].0 && edges[e].selector
                    == self.pseudo_active[a].1;
                assert(same == (model[e as int].gate == gate));
                assert(model.subrange(0, e + 1).drop_last() =~= model.subrange(0, e as int));
                if same {
                    let wide: i64 = sum as i64 + edges[e].value as i64;
                    sum = if wide < -0x8000_0000 {
                        i32::MIN
                    } else if wide > 0x7fff_ffff {
                        i32::MAX
                    } else {
                        wide as i32
                    };
                }
                e += 1;
            }
            assert(model.subrange(0, e as int) =~= model);
            assert(gates.subrange(0, a + 1).drop_last() =~= gates.subrange(0, a as int));
            a += 1;
        }
        assert(gates.subrange(0, a as int) =~= gates);
        sum
    }

    /// Records what the host reports about a gate `(pseudo, selector)`, and
    /// brings every variable that input edges drive up to date.
    pub fn set_pseudo_class_active(&mut self, pseudo: &str, selector: &str, value: bool)
        requires
            old(self).wf(),
        ensures
            final(self).wf(),
            final(self)@ == old(self)@.with_gate((pseudo@, selector@), value),
    {
        let ghost before = self@;
        let ghost gate = (pseudo@, selector@);
        let at: Option<usize> = self.gate_position(pseudo, selector);
        match at {
            Some(i) => {
                if value {
                    return;
                }
                self.pseudo_active.remove(i);
                assert(self@.active =~= before.active.remove(i as int));
            },
            None => {
                if !value {
                    return;
                }
                self.pseudo_active.push((pseudo.to_string(), selector.to_string()));
                assert(self@.active =~= before.active.push(gate));
            },
        }
        let ghost middle = self@;
        assert(middle.groups.subrange(0, 0) =~= Seq::<GroupModel>::empty());
        let mut g: usize = 0;
        while g < self.input_edge_groups.len()
            invariant
                g <= self.input_edge_groups@.len(),
                self.wf(),
                self@ == (StateModel {
                    vars: driven(middle.vars, middle.groups.subrange(0, g as int), middle.active),
                    ..middle
                }),
                self@.vars.len() == middle.vars.len(),
            decreases self.input_edge_groups@.len() - g,
        {
            let slot: usize = self.input_edge_groups[g].slot;
            assert(middle.groups.subrange(0, g + 1).drop_last() =~= middle.groups.subrange(
                0,
                g as int,
            ));
            if slot < self.state_vars.len() {
                let sum: i32 = self.sum_of_active(g);
                self.state_vars.set(slot, sum);
            }
            g += 1;
        }
        assert(middle.groups.subrange(0, g as int) =~= middle.groups);
    }

    /// What is stored at `addr`, without a trace in the read log.
    pub fn peek_mem(&self, addr: i32) -> (r: i32)
        requires
            self.packed_cell_size <= 4,
        ensures
            r == self@.read(addr),
    {
        if addr < 0 {
            let idx: usize = (-(addr + 1)) as usize;
            return if idx < self.state_vars.len() {
                self.state_vars[idx]
            } else {
                0
            };
        }
        if let Some((slot, off)) = self.packed_place(addr as u64) {
            let shift: u32 = 8 * off as u32;
            return (self.state_vars[slot] >> shift) & 0xFF;
        }
        if let Some(w) = &self.windowed_byte_array {
            if addr >= w.window_base && addr < w.window_end {
                let key: i32 = if w.key_cell_slot < self.state_vars.len() {
                    self.state_vars[w.key_cell_slot]
                } else {
                    0
                };
                let index: i32 = key.wrapping_mul(w.stride).wrapping_add(
                    addr.wrapping_sub(w.window_base),
                ).wrapping_sub(w.byte_array_base_key);
                let bytes: &Vec<i32> = &*w.byte_array;
                if index >= 0 && (index as usize) < bytes.len() {
                    return bytes[index as usize];
                }
                return 0;
            }
        }
        if addr >= EXTENDED_BASE {
            match fx::cell_get(&self.extended, addr) {
                Some(v) => v,
                None => 0,
            }
        } else if (addr as usize) < self.memory.len() {
            self.memory[addr as usize] as i32
        } else {
            0
        }
    }

    /// The packed cell that covers `addr`.
    fn packed_place(&self, addr: u64) -> (r: Option<(usize, usize)>)
        ensures
            match r {
                Some((slot, off)) => self@.packed(addr as int) == Some((slot as int, off as int))
                    && slot < self.state_vars@.len() && off < self.packed_cell_size,
                None => self@.packed(addr as int) is None,
            },
    {
        if self.packed_cell_table.is_empty() || self.packed_cell_size == 0 {
            return None;
        }
        let pack: u64 = self.packed_cell_size as u64;
        let cell_idx: u64 = addr / pack;
        if cell_idx >= self.packed_cell_table.len() as u64 {
            return None;
        }
        let cell_addr: i32 = self.packed_cell_table[cell_idx as usize];
        if cell_addr >= 0 {
            return None;
        }
        let slot: usize = (-(cell_addr + 1)) as usize;
        if slot >= self.state_vars.len() {
            return None;
        }
        Some((slot, (addr % pack) as usize))
    }

    fn log_read(&mut self, addr: i32, value: i32)
        ensures
            final(self)@ == (StateModel {
                read_log: logged(old(self)@.read_log, addr, value),
                ..old(self)@
            }),
            old(self).wf() ==> final(self).wf(),
    {
        let mut log: Option<Vec<(i32, i32)>> = self.read_log.take();
        if let Some(entries) = &mut log {
            entries.push((addr, value));
        }
        self.read_log = log;
    }

    /// Reads `addr`.
    pub fn read_mem(&mut self, addr: i32) -> (r: i32)
        requires
            old(self).wf(),
        ensures
            final(self).wf(),
            r == old(self)@.read(addr),
            final(self)@ == old(self)@.after_read(addr),
    {
        let v: i32 = self.peek_mem(addr);
        self.log_read(addr, v);
        v
    }

    /// Reads the little-endian word at `addr`; the sum of its halves wraps.
    pub fn read_mem16(&mut self, addr: i32) -> (r: i32)
        requires
            old(self).wf(),
        ensures
            final(self).wf(),
            r == old(self)@.read16(addr),
            final(self)@ == old(self)@.after_read16(addr),
    {
        if addr >= 0 && self.packed_cell_size == 2 && addr % 2 == 0 {
            if let Some((slot, _off)) = self.packed_place(addr as u64) {
                let word: i32 = self.state_vars[slot] & 0xFFFF;
                self.log_read(addr, word & 0xFF);
                self.log_read(addr.wrapping_add(1), (word >> 8u32) & 0xFF);
                return word;
            }
        }
        let lo: i32 = self.read_mem(addr);
        let hi: i32 = self.read_mem(addr.wrapping_add(1));
        lo.wrapping_add(hi.wrapping_mul(256))
    }

    /// Stores one byte in the byte array and in the packed cell that covers it.
    fn write_byte_packed_aware(&mut self, addr: u64, byte: u8)
        requires
            old(self).wf(),
        ensures
            final(self).wf(),
            final(self)@ == old(self)@.store(addr as int, byte),
    {
        let place: Option<(usize, usize)> = self.packed_place(addr);
        if addr < self.memory.len() as u64 {
            self.memory.set(addr as usize, byte);
        }
        if let Some((slot, off)) = place {
            let shift: u32 = 8 * off as u32;
            let cell: i32 = self.state_vars[slot];
            let mask: i32 = !(0xFFi32 << shift);
            self.state_vars.set(slot, (cell & mask) | ((byte as i32) << shift));
        }
    }

    /// Writes `value` at `addr`.
    pub fn write_mem(&mut self, addr: i32, value: i32)
        requires
            old(self).wf(),
        ensures
            final(self).wf(),
            final(self)@ == old(self)@.write(addr, value),
    {
        let mut log: Option<Vec<(i32, i32)>> = self.write_log.take();
        if let Some(entries) = &mut log {
            entries.push((addr, value));
        }
        self.write_log = log;
        if addr < 0 {
            let idx: usize = (-(addr + 1)) as usize;
            if idx < self.state_vars.len() {
                self.state_vars.set(idx, value);
            }
        } else if addr >= EXTENDED_BASE {
            fx::cell_insert(&mut self.extended, addr, value);
        } else {
            self.write_byte_packed_aware(addr as u64, (value & 0xFF) as u8);
        }
    }

    /// Writes `byte` at `count` addresses from `addr` on, lowest address first.
    /// The range ends at the highest address at the latest.
    pub fn bulk_fill_byte(&mut self, addr: usize, count: usize, byte: u8)
        requires
            old(self).wf(),
        ensures
            final(self).wf(),
            final(self)@ == old(self)@.fill(
                addr as int,
                crate::number::clamped(addr + count, 0, usize::MAX as int),
                byte,
            ),
    {
        let end: usize = addr.saturating_add(count);
        let pack: usize = self.packed_cell_size as usize;
        let mut i: usize = addr;
        while i < end && (i <= 0x7fff_ffff || i < self.memory.len() || (pack > 0 && i / pack
            < self.packed_cell_table.len()))
            invariant
                addr <= i,
                i <= end || addr > end,
                end == crate::number::clamped(addr + count, 0, usize::MAX as int),
                self.wf(),
                pack == self.packed_cell_size,
                self@.fill(i as int, end as int, byte) == old(self)@.fill(
                    addr as int,
                    end as int,
                    byte,
                ),
            decreases end - i,
        {
            if i <= 0x7fff_ffff {
                self.write_mem(i as i32, byte as i32);
            } else {
                self.write_byte_packed_aware(i as u64, byte);
            }
            i += 1;
        }
        proof {
            if i < end {
                self@.lemma_fill_outside(i as int, end as int, byte);
            }
        }
    }

    /// Copies `count` bytes one at a time, lowest address first. Overlapping
    /// ranges therefore repeat what the copy has already stored.
    pub fn bulk_copy_bytes(&mut self, src: usize, dst: usize, count: usize)
        requires
            old(self).wf(),
            src + (count - 1) <= usize::MAX,
            dst + (count - 1) <= usize::MAX,
        ensures
            final(self).wf(),
            final(self)@ == old(self)@.copy(src as int, dst as int, count as int),
    {
        self.copy_linear(src as u64, dst as u64, count as u64);
    }

    /// Copies `count` bytes one at a time, lowest address first.
    pub fn copy_linear(&mut self, src: u64, dst: u64, count: u64)
        requires
            old(self).wf(),
            src + (count - 1) <= u64::MAX,
            dst + (count - 1) <= u64::MAX,
        ensures
            final(self).wf(),
            final(self)@ == old(self)@.copy(src as int, dst as int, count as int),
    {
        let mut i: u64 = 0;
        while i < count
            invariant
                i <= count,
                src + (count - 1) <= u64::MAX,
                dst + (count - 1) <= u64::MAX,
                self.wf(),
                self@.copy(src + i, dst + i, count - i) == old(self)@.copy(
                    src as int,
                    dst as int,
                    count as int,
                ),
            decreases count - i,
        {
            let from: i32 = (src + i) as i32;
            let byte: u8 = (self.read_mem(from) & 0xFF) as u8;
            self.put_byte(dst + i, byte);
            i += 1;
        }
    }

    fn put_byte(&mut self, addr: u64, byte: u8)
        requires
            old(self).wf(),
        ensures
            final(self).wf(),
            final(self)@ == old(self)@.put(addr as int, byte),
    {
        let packed: bool = self.packed_place(addr).is_some();
        self.write_byte_packed_aware(addr, byte);
        if addr >= EXTENDED_BASE as u64 && addr <= 0x7fff_ffff && !packed {
            fx::cell_insert(&mut self.extended, addr as i32, byte as i32);
        }
    }

    /// Stores one byte of guest memory at a linear address: in the byte array and
    /// in the packed cell that covers it, or, where none does, from
    /// [`EXTENDED_BASE`] on in the extended table. A negative address is dropped,
    /// and nothing is logged.
    pub fn bulk_store_byte(&mut self, addr: i64, byte: u8)
        requires
            old(self).wf(),
        ensures
            final(self).wf(),
            final(self)@ == old(self)@.put(addr as int, byte),
    {
        if addr >= 0 {
            self.put_byte(addr as u64, byte);
        }
    }

    /// Stores `byte` at `count` linear addresses from `addr` on, lowest address
    /// first.
    pub fn bulk_fill(&mut self, addr: i64, count: u64, byte: u8)
        requires
            old(self).wf(),
            addr + count <= i64::MAX,
        ensures
            final(self).wf(),
            final(self)@ == old(self)@.put_all(addr as int, addr + count, byte),
    {
        let end: i64 = (addr as i128 + count as i128) as i64;
        let mut i: i64 = addr;
        while i < end
            invariant
                addr <= i <= end == addr + count,
                self.wf(),
                self@.put_all(i as int, end as int, byte) == old(self)@.put_all(
                    addr as int,
                    end as int,
                    byte,
                ),
            decreases end - i,
        {
            self.bulk_store_byte(i, byte);
            i += 1;
        }
    }

    /// Appends a key to the keyboard ring buffer whose head, tail and bounds
    /// lie at fixed addresses. A full buffer keeps its tail.
    pub fn bda_push_key(&mut self, key: i32)
        requires
            old(self).wf(),
        ensures
            final(self).wf(),
            final(self)@ == old(self)@.with_key(key),
    {
        let tail: i32 = self.read_mem16(0x41C);
        let buf_end: i32 = self.read_mem16(0x482);
        let buf_start: i32 = self.read_mem16(0x480);
        let linear: i32 = tail.wrapping_add(0x400);
        self.write_mem(linear, key & 0xFF);
        self.write_mem(linear.wrapping_add(1), (key >> 8u32) & 0xFF);
        let next: i32 = tail.wrapping_add(2);
        let new_tail: i32 = if next >= buf_end {
            buf_start
        } else {
            next
        };
        let head: i32 = self.read_mem16(0x41A);
        if new_tail != head {
            self.write_mem(0x41C, new_tail & 0xFF);
            self.write_mem(0x41D, (new_tail >> 8u32) & 0xFF);
        }
    }

    /// Low byte of a value.
    pub fn lo8(value: i32) -> (r: i32)
        ensures
            r == value & 0xFF,
            0 <= r <= 0xFF,
    {
        assert(0 <= value & 0xFF && value & 0xFF <= 0xFF) by (bit_vector);
        value & 0xFF
    }

    /// Second byte of a value.
    pub fn hi8(value: i32) -> (r: i32)
        ensures
            r == (value >> 8u32) & 0xFF,
            0 <= r <= 0xFF,
    {
        let high: i32 = value >> 8u32;
        assert(0 <= high & 0xFF && high & 0xFF <= 0xFF) by (bit_vector);
        high & 0xFF
    }
}

impl Default for State {
    fn default() -> (r: State)
        ensures
            r.wf(),
            r@ == StateModel::fresh(DEFAULT_MEM_SIZE as nat),
    {
        State::new(DEFAULT_MEM_SIZE)
    }
}

// ---------------------------------------------------------------------------
// Copies
// ---------------------------------------------------------------------------

impl Clone for InputEdgeGroupEntry {
    fn clone(&self) -> (r: Self)
        ensures
            r.view() == self.view(),
    {
        InputEdgeGroupEntry {
            pseudo: self.pseudo.clone(),
            selector: self.selector.clone(),
            value: self.value,
        }
    }
}

impl Clone for InputEdgeGroup {
    fn clone(&self) -> (r: Self)
        ensures
            r.view() == self.view(),
    {
        let r = InputEdgeGroup { slot: self.slot, edges: self.edges.clone() };
        assert(r.view().edges =~= self.view().edges);
        r
    }
}

impl Clone for WindowedByteArray {
    fn clone(&self) -> (r: Self)
        ensures
            r.view() == self.view(),
    {
        WindowedByteArray {
            window_base: self.window_base,
            window_end: self.window_end,
            key_cell_slot: self.key_cell_slot,
            stride: self.stride,
            byte_array_base_key: self.byte_array_base_key,
            byte_array: self.byte_array.clone(),
        }
    }
}

/// Copies a log.
fn clone_log(log: &Option<Vec<(i32, i32)>>) -> (r: Option<Vec<(i32, i32)>>)
    ensures
        log_view(r) == log_view(*log),
{
    match log {
        Some(entries) => {
            let mut copy: Vec<(i32, i32)> = Vec::new();
            let mut i: usize = 0;
            while i < entries.len()
                invariant
                    i <= entries@.len(),
                    copy@ == entries@.take(i as int),
                decreases entries@.len() - i,
            {
                copy.push(entries[i]);
                i += 1;
                assert(copy@ =~= entries@.take(i as int));
            }
            assert(copy@ =~= entries@);
            Some(copy)
        },
        None => None,
    }
}

/// One more name.
proof fn lemma_take_contains(names: Seq<Seq<char>>, i: int)
    requires
        0 <= i < names.len(),
    ensures
        forall|n: Seq<char>| #[trigger]
            names.take(i + 1).contains(n) <==> names.take(i).contains(n) || n == names[i],
{
    assert forall|n: Seq<char>| #[trigger] names.take(i + 1).contains(n) <==> (names.take(
        i,
    ).contains(n) || n == names[i]) by {
        if names.take(i + 1).contains(n) {
            let j = names.take(i + 1).index_of(n);
            if j < i {
                assert(names.take(i)[j] == n);
            }
        }
        if names.take(i).contains(n) {
            let j = names.take(i).index_of(n);
            assert(names.take(i + 1)[j] == n);
        }
        assert(names.take(i + 1)[i] == names[i]);
    }
}

impl State {
    /// The part of the lookup table that concerns the state's own names.
    fn clone_index(&self) -> (r: StringHashMap<usize>)
        ensures
            forall|name: Seq<char>| #[trigger]
                r@.contains_key(name) <==> self.state_var_index@.contains_key(name)
                    && text::views(self.state_var_names@).contains(name),
            forall|name: Seq<char>| #[trigger]
                r@.contains_key(name) ==> r@[name] == self.state_var_index@[name],
    {
        let mut index: StringHashMap<usize> = StringHashMap::new();
        let ghost names = text::views(self.state_var_names@);
        let mut i: usize = 0;
        while i < self.state_var_names.len()
            invariant
                i <= self.state_var_names@.len(),
                names == text::views(self.state_var_names@),
                forall|name: Seq<char>| #[trigger]
                    index@.contains_key(name) <==> self.state_var_index@.contains_key(name)
                        && names.take(i as int).contains(name),
                forall|name: Seq<char>| #[trigger]
                    index@.contains_key(name) ==> index@[name] == self.state_var_index@[name],
            decreases self.state_var_names@.len() - i,
        {
            let name: &String = &self.state_var_names[i];
            let ghost before = index@;
            proof {
                lemma_take_contains(names, i as int);
            }
            if let Some(at) = self.state_var_index.get(name.as_str()) {
                index.insert(name.clone(), *at);
            }
            assert forall|n: Seq<char>| #[trigger] index@.contains_key(n) <==> (
            self.state_var_index@.contains_key(n) && names.take(i + 1).contains(n)) by {
                assert(before.contains_key(n) <==> self.state_var_index@.contains_key(n)
                    && names.take(i as int).contains(n));
                assert(names.take(i + 1).contains(n) <==> names.take(i as int).contains(n) || n
                    == name@);
            }
            i += 1;
        }
        assert(names.take(i as int) =~= names);
        index
    }
}

impl Clone for State {
    fn clone(&self) -> (r: Self)
        ensures
            r@ == self@,
            self.wf() ==> r.wf(),
            self.wf() ==> r.state_var_index@ == self.state_var_index@,
    {
        let window: Option<WindowedByteArray> = match &self.windowed_byte_array {
            Some(w) => Some(w.clone()),
            None => None,
        };
        let r = State {
            state_vars: self.state_vars.clone(),
            state_var_names: self.state_var_names.clone(),
            state_var_index: self.clone_index(),
            memory: self.memory.clone(),
            extended: self.extended.clone(),
            string_properties: self.string_properties.clone(),
            frame_counter: self.frame_counter,
            read_log: clone_log(&self.read_log),
            write_log: clone_log(&self.write_log),
            packed_cell_table: self.packed_cell_table.clone(),
            packed_cell_size: self.packed_cell_size,
            windowed_byte_array: window,
            pseudo_active: crate::tables::clone_pairs(&self.pseudo_active),
            input_edge_groups: self.input_edge_groups.clone(),
        };
        assert(r.state_vars@ =~= self.state_vars@);
        assert(r.memory@ =~= self.memory@);
        assert(r.packed_cell_table@ =~= self.packed_cell_table@);
        assert(text::views(r.state_var_names@) =~= text::views(self.state_var_names@));
        assert(r@.groups =~= self@.groups);
        proof {
            if self.wf() {
                let names = text::views(self.state_var_names@);
                assert forall|name: Seq<char>| #[trigger]
                    self.state_var_index@.contains_key(name) implies names.contains(name) by {
                    lemma_last_index(names, name);
                    let at = last_index(names, name)->0;
                    assert(names[at] == name);
                }
                assert(r.state_var_index@ =~= self.state_var_index@);
            }
        }
        r
    }
}

} // verus!

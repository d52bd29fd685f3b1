//! Populating a state from property declarations and from read tables.

use crate::fx;
use crate::names;
use crate::number;
use crate::pattern::dispatch_table::DispatchTable;
use crate::state;
use crate::state::{State, StateModel, EXTENDED_BASE};
use crate::text;
use crate::types::{CssValue, Expr, ExprModel, PropertyDef};
use vstd::hash_map::StringHashMap;
use vstd::prelude::*;

verus! {

/// The address that a bare name of the form `m<digits>` declares.
pub open spec fn memory_address(name: Seq<char>) -> Option<int> {
    if name.len() >= 2 && name[0] == 'm' && text::all_digits(text::dropped(name, 1))
        && text::decimal_value(text::dropped(name, 1)) <= usize::MAX {
        Some(text::decimal_value(text::dropped(name, 1)))
    } else {
        None
    }
}

impl PropertyDef {
    /// The declared integer, 0 where there is none; it wraps to 32 bits.
    pub open spec fn initial(&self) -> i32 {
        match self.initial_value {
            Some(CssValue::Integer(v)) => v as i32,
            _ => 0,
        }
    }

    /// The byte of memory that the declaration initialises.
    pub open spec fn byte(&self) -> Option<(int, u8)> {
        if names::bare(self.name@) == "clock"@ {
            None
        } else {
            match memory_address(names::bare(self.name@)) {
                Some(addr) => Some((addr, state::low_byte(self.initial()))),
                None => None,
            }
        }
    }

    /// Does the declaration introduce a state variable?
    pub open spec fn is_variable(&self) -> bool {
        names::bare(self.name@) != "clock"@ && memory_address(names::bare(self.name@)) is None
    }
}

/// Names of the variables that the declarations introduce, in order.
pub open spec fn declared_names(props: Seq<PropertyDef>) -> Seq<Seq<char>>
    decreases props.len(),
{
    if props.len() == 0 {
        Seq::empty()
    } else if props.last().is_variable() {
        declared_names(props.drop_last()).push(names::bare(props.last().name@))
    } else {
        declared_names(props.drop_last())
    }
}

/// Initial values of the variables that the declarations introduce, in order.
pub open spec fn declared_values(props: Seq<PropertyDef>) -> Seq<i32>
    decreases props.len(),
{
    if props.len() == 0 {
        Seq::empty()
    } else if props.last().is_variable() {
        declared_values(props.drop_last()).push(props.last().initial())
    } else {
        declared_values(props.drop_last())
    }
}

/// Bytes that the declarations initialise, in order.
pub open spec fn declared_bytes(props: Seq<PropertyDef>) -> Seq<(int, u8)>
    decreases props.len(),
{
    if props.len() == 0 {
        Seq::empty()
    } else {
        match props.last().byte() {
            Some(b) => declared_bytes(props.drop_last()).push(b),
            None => declared_bytes(props.drop_last()),
        }
    }
}

/// Memory size that the initialised bytes below the extended range need.
pub open spec fn needed_size(bytes: Seq<(int, u8)>) -> int
    decreases bytes.len(),
{
    if bytes.len() == 0 {
        0
    } else {
        let before = needed_size(bytes.drop_last());
        if bytes.last().0 < EXTENDED_BASE && bytes.last().0 + 1 > before {
            bytes.last().0 + 1
        } else {
            before
        }
    }
}

/// Memory grown with zeroes to at least `size` bytes.
pub open spec fn grown(memory: Seq<u8>, size: int) -> Seq<u8> {
    if size > memory.len() {
        memory + Seq::new((size - memory.len()) as nat, |i: int| 0u8)
    } else {
        memory
    }
}

impl StateModel {
    /// The state with one initialised byte, wherever its address lives.
    pub open spec fn with_byte(self, addr: int, byte: u8) -> StateModel {
        if addr >= EXTENDED_BASE {
            StateModel { extended: self.extended.insert(addr as i32, byte as i32), ..self }
        } else if addr < self.memory.len() {
            StateModel { memory: self.memory.update(addr, byte), ..self }
        } else {
            self
        }
    }

    /// The state with all initialised bytes, in order.
    pub open spec fn with_bytes(self, bytes: Seq<(int, u8)>) -> StateModel
        decreases bytes.len(),
    {
        if bytes.len() == 0 {
            self
        } else {
            self.with_bytes(bytes.drop_last()).with_byte(bytes.last().0, bytes.last().1)
        }
    }

    /// The state after loading declarations: the variables are exactly the
    /// declared ones, memory holds every declared byte.
    pub open spec fn loaded(self, props: Seq<PropertyDef>) -> StateModel {
        StateModel {
            vars: declared_values(props),
            names: declared_names(props),
            memory: grown(self.memory, needed_size(declared_bytes(props))),
            ..self
        }.with_bytes(declared_bytes(props))
    }
}

/// The same number of names as of values.
proof fn lemma_declared(props: Seq<PropertyDef>)
    ensures
        declared_names(props).len() == declared_values(props).len(),
        declared_names(props).len() <= props.len(),
        declared_bytes(props).len() <= props.len(),
    decreases props.len(),
{
    if props.len() > 0 {
        lemma_declared(props.drop_last());
    }
}

/// More declarations introduce no fewer variables.
proof fn lemma_declared_grows(props: Seq<PropertyDef>, n: int)
    requires
        0 <= n <= props.len(),
    ensures
        declared_names(props.subrange(0, n)).len() <= declared_names(props).len(),
    decreases props.len(),
{
    if n == props.len() {
        assert(props.subrange(0, n) =~= props);
    } else {
        lemma_declared_grows(props.drop_last(), n);
        assert(props.drop_last().subrange(0, n) =~= props.subrange(0, n));
    }
}

/// The address that a bare name declares.
fn declared_address(name: &String) -> (r: Option<usize>)
    ensures
        match r {
            Some(a) => memory_address(name@) == Some(a as int),
            None => memory_address(name@) is None,
        },
{
    let chars = text::chars_of(name.as_str());
    if chars.len() < 2 || chars[0] != 'm' {
        return None;
    }
    match text::parse_decimal(&chars, 1, chars.len(), usize::MAX as u64) {
        Some(v) => Some(v as usize),
        None => None,
    }
}

impl State {
    /// Replaces the variables by the declared ones, grows memory to hold every
    /// declared byte, and initialises both. Returns the address of each
    /// variable name, which the host hands to its expression compiler.
    pub fn load_properties(&mut self, properties: &[PropertyDef]) -> (r: StringHashMap<i32>)
        requires
            old(self).wf(),
            declared_names(properties@).len() <= i32::MAX,
        ensures
            final(self).wf(),
            final(self)@ == old(self)@.loaded(properties@),
            forall|name: Seq<char>| #[trigger]
                r@.contains_key(name) <==> final(self)@.slot(name) is Some,
            forall|name: Seq<char>| #[trigger]
                r@.contains_key(name) ==> r@[name] == -(final(self)@.slot(name)->0 + 1),
    {
        let ghost before = self@;
        let mut address_map: StringHashMap<i32> = StringHashMap::new();
        let mut bytes: Vec<(usize, u8)> = Vec::new();
        let mut size: usize = 0;
        self.state_vars.clear();
        self.state_var_names.clear();
        self.state_var_index.clear();
        assert(properties@.subrange(0, 0) =~= Seq::<PropertyDef>::empty());
        assert(self@.names =~= Seq::<Seq<char>>::empty());
        let mut i: usize = 0;
        while i < properties.len()
            invariant
                i <= properties@.len(),
                declared_names(properties@).len() <= i32::MAX,
                self.wf(),
                self@ == (StateModel {
                    vars: declared_values(properties@.subrange(0, i as int)),
                    names: declared_names(properties@.subrange(0, i as int)),
                    ..before
                }),
                bytes_view(bytes@) == declared_bytes(properties@.subrange(0, i as int)),
                size == needed_size(declared_bytes(properties@.subrange(0, i as int))),
                forall|name: Seq<char>|
                    #![trigger address_map@.contains_key(name)]
                    #![trigger self.state_var_index@.contains_key(name)]
                    address_map@.contains_key(name) == self.state_var_index@.contains_key(name)
                        && (address_map@.contains_key(name) ==> address_map@[name] == -(
                    self.state_var_index@[name] + 1)),
            decreases properties@.len() - i,
        {
            let ghost done = properties@.subrange(0, i as int);
            let ghost next = properties@.subrange(0, i + 1);
            proof {
                assert(next.drop_last() =~= done);
                assert(next.last() == properties@[i as int]);
                lemma_declared(done);
                lemma_declared_grows(properties@, i + 1);
            }
            let prop: &PropertyDef = &properties[i];
            let value: i32 = match &prop.initial_value {
                Some(CssValue::Integer(v)) => *v as i32,
                _ => 0,
            };
            let name: String = names::bare_name(prop.name.as_str()).to_string();
            if !text::same(name.as_str(), "clock") {
                match declared_address(&name) {
                    Some(addr) => {
                        if addr < EXTENDED_BASE as usize && addr + 1 > size {
                            size = addr + 1;
                        }
                        bytes.push((addr, (value & 0xFF) as u8));
                        assert(bytes_view(bytes@) =~= declared_bytes(next));
                        assert(declared_bytes(next).drop_last() =~= declared_bytes(done));
                    },
                    None => {
                        let slot: usize = self.state_vars.len();
                        address_map.insert(name.clone(), -(slot as i32 + 1));
                        self.state_var_index.insert(name.clone(), slot);
                        self.state_vars.push(value);
                        let ghost names = self@.names;
                        self.state_var_names.push(name);
                        proof {
                            assert(self@.names =~= names.push(name@));
                            assert(self@.names.drop_last() =~= names);
                        }
                    },
                }
            }
            i += 1;
        }
        assert(properties@.subrange(0, i as int) =~= properties@);
        if size > self.memory.len() {
            let ghost m = self@.memory;
            self.memory.resize(size, 0);
            assert(self@.memory =~= grown(m, size as int));
        }
        let ghost sized = self@;
        let ghost index_after = self.state_var_index@;
        let ghost all = declared_bytes(properties@);
        let mut j: usize = 0;
        assert(all.subrange(0, 0) =~= Seq::<(int, u8)>::empty());
        while j < bytes.len()
            invariant
                j <= bytes@.len(),
                self.wf(),
                bytes_view(bytes@) == all,
                self@ == sized.with_bytes(all.subrange(0, j as int)),
                self@.names == sized.names,
                self.state_var_index@ == index_after,
            decreases bytes@.len() - j,
        {
            let (addr, value): (usize, u8) = bytes[j];
            assert(all[j as int] == (addr as int, value));
            assert(all.subrange(0, j + 1).drop_last() =~= all.subrange(0, j as int));
            if addr >= EXTENDED_BASE as usize {
                fx::cell_insert(&mut self.extended, addr as i32, value as i32);
            } else if addr < self.memory.len() {
                self.memory.set(addr, value);
            }
            j += 1;
        }
        assert(all.subrange(0, j as int) =~= all);
        address_map
    }
}

/// The value of a list of initialised bytes.
pub open spec fn bytes_view(v: Seq<(usize, u8)>) -> Seq<(int, u8)> {
    Seq::new(v.len(), |i: int| (v[i].0 as int, v[i].1))
}


// ---------------------------------------------------------------------------
// Read tables
// ---------------------------------------------------------------------------

impl StateModel {
    /// The state with one literal entry of a read table stored at its key.
    /// Other entries, and keys that wrap to a negative address, store nothing.
    pub open spec fn with_entry_of(self, key: i64, entry: ExprModel) -> StateModel {
        match entry {
            ExprModel::Number(bits) => {
                let addr = key as i32;
                if addr < 0 {
                    self
                } else if addr >= EXTENDED_BASE {
                    StateModel {
                        extended: self.extended.insert(addr, number::as_i32(bits)),
                        ..self
                    }
                } else if addr < self.memory.len() {
                    StateModel {
                        memory: self.memory.update(
                            addr as int,
                            state::low_byte(number::as_i32(bits)),
                        ),
                        ..self
                    }
                } else {
                    self
                }
            },
            _ => self,
        }
    }

    /// The state with the entries under `keys` stored, in that order.
    pub open spec fn with_entries_of(
        self,
        entries: Map<i64, ExprModel>,
        keys: Seq<i64>,
    ) -> StateModel
        decreases keys.len(),
    {
        if keys.len() == 0 {
            self
        } else {
            self.with_entries_of(entries, keys.drop_last()).with_entry_of(
                keys.last(),
                entries[keys.last()],
            )
        }
    }
}

proof fn lemma_entries_pointwise(
    m: StateModel,
    entries: Map<i64, ExprModel>,
    keys: Seq<i64>,
    addr: i32,
)
    requires
        keys.no_duplicates(),
        forall|i: int|
            0 <= i < keys.len() ==> i32::MIN <= #[trigger] keys[i] <= i32::MAX,
        addr >= 0,
    ensures
        ({
            let r = m.with_entries_of(entries, keys);
            let hit = keys.contains(addr as i64) && entries[addr as i64] is Number;
            let value = number::as_i32(entries[addr as i64]->Number_0);
            &&& r.memory.len() == m.memory.len()
            &&& r.extended.contains_key(addr) == (m.extended.contains_key(addr) || (hit && addr
                >= EXTENDED_BASE))
            &&& r.extended[addr] == if hit && addr >= EXTENDED_BASE {
                value
            } else {
                m.extended[addr]
            }
            &&& addr < EXTENDED_BASE && addr < m.memory.len() ==> r.memory[addr as int] == if hit {
                state::low_byte(value)
            } else {
                m.memory[addr as int]
            }
        }),
    decreases keys.len(),
{
    if keys.len() > 0 {
        let rest = keys.drop_last();
        let last = keys.last();
        assert forall|i: int| 0 <= i < rest.len() implies i32::MIN <= #[trigger] rest[i]
            <= i32::MAX by {
            assert(rest[i] == keys[i]);
        }
        lemma_entries_pointwise(m, entries, rest, addr);
        assert(keys[keys.len() - 1] == last);
        let k = addr as i64;
        assert(keys.contains(k) == (rest.contains(k) || last == k)) by {
            if keys.contains(k) {
                let i = choose|i: int| 0 <= i < keys.len() && keys[i] == k;
                if i < rest.len() {
                    assert(rest[i] == k);
                }
            }
            if rest.contains(k) {
                let i = choose|i: int| 0 <= i < rest.len() && rest[i] == k;
                assert(keys[i] == k);
            }
        }
        assert(last == k ==> !rest.contains(k)) by {
            if last == k && rest.contains(k) {
                let i = choose|i: int| 0 <= i < rest.len() && rest[i] == k;
                assert(keys[i] == k);
            }
        }
    }
}

/// What populating from a read table leaves at an address does not depend on
/// the order in which the table is walked, as long as every key is an address:
/// a literal entry is found at its key, in the byte array or, from
/// [`EXTENDED_BASE`] on, in the extended cells; everything else is as before.
pub proof fn law_populate_is_keyed(
    m: StateModel,
    entries: Map<i64, ExprModel>,
    keys: Seq<i64>,
    addr: i32,
)
    requires
        fx::lists_keys(keys, entries),
        forall|k: i64| #[trigger] entries.contains_key(k) ==> i32::MIN <= k <= i32::MAX,
        addr >= 0,
    ensures
        ({
            let r = m.with_entries_of(entries, keys);
            let hit = entries.contains_key(addr as i64) && entries[addr as i64] is Number;
            let value = number::as_i32(entries[addr as i64]->Number_0);
            if addr >= EXTENDED_BASE {
                &&& r.extended.contains_key(addr) == (hit || m.extended.contains_key(addr))
                &&& r.extended[addr] == if hit {
                    value
                } else {
                    m.extended[addr]
                }
            } else {
                addr < m.memory.len() ==> r.memory[addr as int] == if hit {
                    state::low_byte(value)
                } else {
                    m.memory[addr as int]
                }
            }
        }),
{
    assert forall|i: int| 0 <= i < keys.len() implies i32::MIN <= #[trigger] keys[i]
        <= i32::MAX by {
        assert(keys.contains(keys[i]));
    }
    lemma_entries_pointwise(m, entries, keys, addr);
}

impl State {
    /// Stores the literal entries of a read table at their keys. The table is
    /// walked in an order of its own.
    pub fn populate_memory_from_readmem(&mut self, table: &DispatchTable)
        requires
            old(self).wf(),
        ensures
            final(self).wf(),
            exists|keys: Seq<i64>| #[trigger]
                fx::lists_keys(keys, table.view().entries) && final(self)@
                    == old(self)@.with_entries_of(table.view().entries, keys),
    {
        let keys: Vec<i64> = fx::table_keys(&table.entries);
        let ghost entries = table.view().entries;
        assert(fx::lists_keys(keys@, entries)) by {
            assert forall|k: i64| entries.contains_key(k) <==> keys@.contains(k) by {
                assert(entries.contains_key(k) == table.entries@.contains_key(k));
            }
        }
        assert(keys@.subrange(0, 0) =~= Seq::<i64>::empty());
        let mut i: usize = 0;
        while i < keys.len()
            invariant
                i <= keys@.len(),
                self.wf(),
                entries == table.view().entries,
                fx::lists_keys(keys@, table.entries@),
                self@ == old(self)@.with_entries_of(entries, keys@.subrange(0, i as int)),
            decreases keys@.len() - i,
        {
            let key: i64 = keys[i];
            assert(keys@.contains(key));
            assert(keys@.subrange(0, i + 1).drop_last() =~= keys@.subrange(0, i as int));
            if let Some(Expr::Literal(v)) = fx::table_get(&table.entries, key) {
                let addr: i32 = key as i32;
                if addr >= 0 {
                    let value: i32 = v.to_i32();
                    if addr >= EXTENDED_BASE {
                        fx::cell_insert(&mut self.extended, addr, value);
                    } else if (addr as usize) < self.memory.len() {
                        self.memory.set(addr as usize, (value & 0xFF) as u8);
                    }
                }
            }
            i += 1;
        }
        assert(keys@.subrange(0, i as int) =~= keys@);
    }
}

} // verus!

//! What a compiled program tells the code that applies its loops.

use crate::names;
use crate::pattern::loop_descriptor::LoopDescriptor;
use crate::state::{State, StateModel};
use vstd::hash_map::StringHashMap;
use vstd::prelude::*;

verus! {

/// The parts of a compiled program that loops are applied with.
pub struct CompiledProgram {
    /// The slot that holds each property while a tick is evaluated.
    pub property_slots: StringHashMap<u32>,
    /// Linear address ranges, end excluded, whose bytes exist only in the
    /// program's own rules.
    pub virtual_regions: Vec<(i64, i64)>,
    /// The loops that were recognised.
    pub loop_descriptors: Vec<LoopDescriptor>,
}

/// The value of a [`CompiledProgram`], its loops aside.
#[verifier::ext_equal]
pub struct ProgramModel {
    pub slots: Map<Seq<char>, u32>,
    pub regions: Seq<(i64, i64)>,
}

impl ProgramModel {
    /// Does every property have its slot among `slots`?
    pub open spec fn fits(self, slots: Seq<i32>) -> bool {
        forall|name: Seq<char>| #[trigger]
            self.slots.contains_key(name) ==> self.slots[name] < slots.len()
    }

    /// The current value of a property: from its slot, or, for a copy from an
    /// earlier tick and for a property without slot, from its state variable.
    pub open spec fn property(self, s: StateModel, slots: Seq<i32>, name: Seq<char>) -> Option<i32> {
        if !names::buffer_copy(name) && self.slots.contains_key(name) {
            Some(slots[self.slots[name] as int])
        } else {
            s.var(names::canonical(name))
        }
    }

    /// The current value of a property, 0 where there is none.
    pub open spec fn property_or_zero(self, s: StateModel, slots: Seq<i32>, name: Seq<char>) -> i32 {
        match self.property(s, slots, name) {
            Some(v) => v,
            None => 0,
        }
    }

    /// Does the address range `from .. to` touch the state's window or a region whose
    /// bytes exist only in the program's rules?
    pub open spec fn touches_virtual(self, s: StateModel, from: int, to: int) -> bool {
        ||| (s.window matches Some(w) && w.base < to && from < w.end)
        ||| exists|i: int|
            0 <= i < self.regions.len() && (#[trigger] self.regions[i]).0 < to && from
                < self.regions[i].1
    }
}

impl CompiledProgram {
    /// The value of a program.
    pub open spec fn view(&self) -> ProgramModel {
        ProgramModel { slots: self.property_slots@, regions: self.virtual_regions@ }
    }

    /// A program without slots, regions and loops.
    pub fn new() -> (r: CompiledProgram)
        ensures
            r.view() == (ProgramModel { slots: Map::empty(), regions: Seq::empty() }),
            r.loop_descriptors@.len() == 0,
    {
        let r = CompiledProgram {
            property_slots: StringHashMap::new(),
            virtual_regions: Vec::new(),
            loop_descriptors: Vec::new(),
        };
        assert(r.view().regions =~= Seq::<(i64, i64)>::empty());
        r
    }

    /// The current value of a property.
    pub fn read_prop(&self, state: &State, slots: &[i32], name: &str) -> (r: Option<i32>)
        requires
            state.wf(),
            self.view().fits(slots@),
        ensures
            r == self.view().property(state@, slots@, name@),
    {
        if !names::is_buffer_copy(name) {
            if let Some(s) = self.property_slots.get(name) {
                assert(self.view().slots.contains_key(name@));
                return Some(slots[*s as usize]);
            }
        }
        state.get_var(names::to_bare_name(name))
    }

    /// The current value of a property, 0 where there is none.
    pub fn read_or_zero(&self, state: &State, slots: &[i32], name: &str) -> (r: i32)
        requires
            state.wf(),
            self.view().fits(slots@),
        ensures
            r == self.view().property_or_zero(state@, slots@, name@),
    {
        match self.read_prop(state, slots, name) {
            Some(v) => v,
            None => 0,
        }
    }

    /// Tells whether an address range touches the state's window or a virtual region.
    pub fn ranges_overlap_virtual(&self, state: &State, from: i64, to: i64) -> (r: bool)
        ensures
            r == self.view().touches_virtual(state@, from as int, to as int),
    {
        if let Some(w) = &state.windowed_byte_array {
            if (w.window_base as i64) < to && from < w.window_end as i64 {
                return true;
            }
        }
        let mut i: usize = 0;
        while i < self.virtual_regions.len()
            invariant
                i <= self.virtual_regions@.len(),
                !(state@.window matches Some(w) && w.base < to && from < w.end),
                forall|j: int|
                    0 <= j < i ==> !((#[trigger] self.virtual_regions@[j]).0 < to && from
                        < self.virtual_regions@[j].1),
            decreases self.virtual_regions@.len() - i,
        {
            let region: (i64, i64) = self.virtual_regions[i];
            if region.0 < to && from < region.1 {
                assert(self.view().regions[i as int] == region);
                return true;
            }
            i += 1;
        }
        false
    }
}

} // verus!

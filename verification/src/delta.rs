//! Recorded differences between two states, applied forward or backward.

use crate::fx;
use crate::state::{State, StateModel};
use crate::text;
use vstd::prelude::*;

verus! {

/// What changed from one state to the next, channel by channel. Every change
/// carries the value before and the value after.
#[derive(Debug, Clone, Default)]
pub struct StateDelta {
    /// Tick counter before.
    pub frame_counter_before: u32,
    /// Tick counter after.
    pub frame_counter_after: u32,
    /// `(variable, before, after)`.
    pub state_vars: Vec<(u32, i32, i32)>,
    /// `(address, before, after)`.
    pub memory: Vec<(u32, u8, u8)>,
    /// `(address, before, after)`; `None` means that nothing was stored.
    pub extended: Vec<(i32, Option<i32>, Option<i32>)>,
    /// `(name, before, after)`; `None` means that nothing was stored.
    pub string_properties: Vec<(String, Option<String>, Option<String>)>,
}

/// One change of a channel: key, value before, value after.
#[verifier::ext_equal]
pub struct Change<K, V> {
    pub key: K,
    pub before: V,
    pub after: V,
}

/// The value of a [`StateDelta`].
#[verifier::ext_equal]
pub struct DeltaModel {
    pub frame_before: u32,
    pub frame_after: u32,
    pub vars: Seq<Change<int, i32>>,
    pub memory: Seq<Change<int, u8>>,
    pub extended: Seq<Change<i32, Option<i32>>>,
    pub strings: Seq<Change<Seq<char>, Option<Seq<char>>>>,
}

impl<K, V> Change<K, V> {
    /// The value that a change leaves behind in the given direction.
    pub open spec fn target(self, forward: bool) -> V {
        if forward {
            self.after
        } else {
            self.before
        }
    }
}

/// A sequence after the given changes of its elements, in order.
pub open spec fn moved_seq<V>(s: Seq<V>, changes: Seq<Change<int, V>>, forward: bool) -> Seq<V>
    decreases changes.len(),
{
    if changes.len() == 0 {
        s
    } else {
        moved_seq(s, changes.drop_last(), forward).update(
            changes.last().key,
            changes.last().target(forward),
        )
    }
}

/// A map with one key set, or removed.
pub open spec fn with_entry<K, V>(m: Map<K, V>, key: K, value: Option<V>) -> Map<K, V> {
    match value {
        Some(v) => m.insert(key, v),
        None => m.remove(key),
    }
}

/// A map after the given changes of its entries, in order.
pub open spec fn moved_map<K, V>(
    m: Map<K, V>,
    changes: Seq<Change<K, Option<V>>>,
    forward: bool,
) -> Map<K, V>
    decreases changes.len(),
{
    if changes.len() == 0 {
        m
    } else {
        with_entry(
            moved_map(m, changes.drop_last(), forward),
            changes.last().key,
            changes.last().target(forward),
        )
    }
}

impl StateModel {
    /// The state after a delta was applied, forward or backward.
    pub open spec fn moved(self, d: DeltaModel, forward: bool) -> StateModel {
        StateModel {
            vars: moved_seq(self.vars, d.vars, forward),
            memory: moved_seq(self.memory, d.memory, forward),
            extended: moved_map(self.extended, d.extended, forward),
            strings: moved_map(self.strings, d.strings, forward),
            frame: if forward {
                d.frame_after
            } else {
                d.frame_before
            },
            ..self
        }
    }
}

impl DeltaModel {
    /// Every change names a variable and a byte that the state has.
    pub open spec fn fits(self, m: StateModel) -> bool {
        &&& forall|i: int|
            0 <= i < self.vars.len() ==> 0 <= (#[trigger] self.vars[i]).key < m.vars.len()
        &&& forall|i: int|
            0 <= i < self.memory.len() ==> 0 <= (#[trigger] self.memory[i]).key < m.memory.len()
    }

    /// No channel changes a key twice.
    pub open spec fn changes_once(self) -> bool {
        &&& once(self.vars)
        &&& once(self.memory)
        &&& once(self.extended)
        &&& once(self.strings)
    }

    /// The values before, as recorded, are those of `m`.
    pub open spec fn starts_at(self, m: StateModel) -> bool {
        &&& self.frame_before == m.frame
        &&& forall|i: int|
            0 <= i < self.vars.len() ==> (#[trigger] self.vars[i]).before == m.vars[self.vars[i].key]
        &&& forall|i: int|
            0 <= i < self.memory.len() ==> (#[trigger] self.memory[i]).before
                == m.memory[self.memory[i].key]
        &&& forall|i: int|
            0 <= i < self.extended.len() ==> (#[trigger] self.extended[i]).before == stored(
                m.extended,
                self.extended[i].key,
            )
        &&& forall|i: int|
            0 <= i < self.strings.len() ==> (#[trigger] self.strings[i]).before == stored(
                m.strings,
                self.strings[i].key,
            )
    }
}

/// No key occurs twice.
pub open spec fn once<K, V>(changes: Seq<Change<K, V>>) -> bool {
    forall|i: int, j: int|
        0 <= i < j < changes.len() ==> (#[trigger] changes[i]).key != (#[trigger] changes[j]).key
}

/// What a map stores under a key.
pub open spec fn stored<K, V>(m: Map<K, V>, key: K) -> Option<V> {
    if m.contains_key(key) {
        Some(m[key])
    } else {
        None
    }
}

/// Element by element, what `moved_seq` holds.
proof fn lemma_moved_seq<V>(s: Seq<V>, changes: Seq<Change<int, V>>, forward: bool)
    requires
        forall|i: int| 0 <= i < changes.len() ==> 0 <= (#[trigger] changes[i]).key < s.len(),
        once(changes),
    ensures
        moved_seq(s, changes, forward).len() == s.len(),
        forall|i: int|
            0 <= i < changes.len() ==> moved_seq(s, changes, forward)[(#[trigger] changes[i]).key]
                == changes[i].target(forward),
        forall|k: int|
            0 <= k < s.len() && (forall|i: int|
                0 <= i < changes.len() ==> (#[trigger] changes[i]).key != k)
                ==> #[trigger] moved_seq(s, changes, forward)[k] == s[k],
    decreases changes.len(),
{
    if changes.len() > 0 {
        let rest = changes.drop_last();
        assert forall|i: int| 0 <= i < rest.len() implies 0 <= (#[trigger] rest[i]).key < s.len() by {
            assert(changes[i] == rest[i]);
        }
        assert forall|i: int, j: int| 0 <= i < j < rest.len() implies (#[trigger] rest[i]).key != (
        #[trigger] rest[j]).key by {
            assert(changes[i].key != changes[j].key);
        }
        lemma_moved_seq(s, rest, forward);
        assert forall|i: int| 0 <= i < changes.len() implies moved_seq(s, changes, forward)[(
        #[trigger] changes[i]).key] == changes[i].target(forward) by {
            if i < rest.len() {
                assert(rest[i] == changes[i]);
                assert(changes[i].key != changes[changes.len() - 1].key);
            }
        }
        assert forall|k: int|
            0 <= k < s.len() && (forall|i: int|
                0 <= i < changes.len() ==> (#[trigger] changes[i]).key != k) implies #[trigger] moved_seq(
            s,
            changes,
            forward,
        )[k] == s[k] by {
            assert(changes[changes.len() - 1].key != k);
            assert forall|i: int| 0 <= i < rest.len() implies (#[trigger] rest[i]).key != k by {
                assert(changes[i] == rest[i]);
            }
        }
    }
}

/// Key by key, what `moved_map` holds.
proof fn lemma_moved_map<K, V>(m: Map<K, V>, changes: Seq<Change<K, Option<V>>>, forward: bool)
    requires
        once(changes),
    ensures
        forall|i: int|
            0 <= i < changes.len() ==> stored(
                moved_map(m, changes, forward),
                (#[trigger] changes[i]).key,
            ) == changes[i].target(forward),
        forall|k: K|
            (forall|i: int| 0 <= i < changes.len() ==> (#[trigger] changes[i]).key != k)
                ==> #[trigger] stored(moved_map(m, changes, forward), k) == stored(m, k),
    decreases changes.len(),
{
    if changes.len() > 0 {
        let rest = changes.drop_last();
        assert forall|i: int, j: int| 0 <= i < j < rest.len() implies (#[trigger] rest[i]).key != (
        #[trigger] rest[j]).key by {
            assert(changes[i].key != changes[j].key);
        }
        lemma_moved_map(m, rest, forward);
        assert forall|i: int| 0 <= i < changes.len() implies stored(
            moved_map(m, changes, forward),
            (#[trigger] changes[i]).key,
        ) == changes[i].target(forward) by {
            if i < rest.len() {
                assert(rest[i] == changes[i]);
                assert(changes[i].key != changes[changes.len() - 1].key);
            }
        }
        assert forall|k: K|
            (forall|i: int| 0 <= i < changes.len() ==> (#[trigger] changes[i]).key != k) implies #[trigger] stored(
            moved_map(m, changes, forward),
            k,
        ) == stored(m, k) by {
            assert(changes[changes.len() - 1].key != k);
            assert forall|i: int| 0 <= i < rest.len() implies (#[trigger] rest[i]).key != k by {
                assert(changes[i] == rest[i]);
            }
            assert(stored(moved_map(m, rest, forward), k) == stored(m, k));
        }
    }
}

/// Reverting a sequence's changes gives the sequence back.
proof fn lemma_seq_round_trip<V>(s: Seq<V>, changes: Seq<Change<int, V>>)
    requires
        forall|i: int| 0 <= i < changes.len() ==> 0 <= (#[trigger] changes[i]).key < s.len(),
        once(changes),
        forall|i: int| 0 <= i < changes.len() ==> (#[trigger] changes[i]).before == s[changes[i].key],
    ensures
        moved_seq(moved_seq(s, changes, true), changes, false) == s,
{
    let there = moved_seq(s, changes, true);
    lemma_moved_seq(s, changes, true);
    lemma_moved_seq(there, changes, false);
    let back = moved_seq(there, changes, false);
    assert forall|k: int| 0 <= k < s.len() implies back[k] == s[k] by {
        if exists|i: int| 0 <= i < changes.len() && (#[trigger] changes[i]).key == k {
            let i = choose|i: int| 0 <= i < changes.len() && (#[trigger] changes[i]).key == k;
            assert(back[changes[i].key] == changes[i].target(false));
        } else {
            assert(there[k] == s[k]);
        }
    }
    assert(back =~= s);
}

/// Reverting a map's changes gives the map back.
proof fn lemma_map_round_trip<K, V>(m: Map<K, V>, changes: Seq<Change<K, Option<V>>>)
    requires
        once(changes),
        forall|i: int|
            0 <= i < changes.len() ==> (#[trigger] changes[i]).before == stored(m, changes[i].key),
    ensures
        moved_map(moved_map(m, changes, true), changes, false) == m,
{
    let there = moved_map(m, changes, true);
    lemma_moved_map(m, changes, true);
    lemma_moved_map(there, changes, false);
    let back = moved_map(there, changes, false);
    assert forall|k: K| stored(back, k) == stored(m, k) by {
        if exists|i: int| 0 <= i < changes.len() && (#[trigger] changes[i]).key == k {
            let i = choose|i: int| 0 <= i < changes.len() && (#[trigger] changes[i]).key == k;
            assert(stored(back, changes[i].key) == changes[i].target(false));
        } else {
            assert(stored(there, k) == stored(m, k));
            assert(stored(back, k) == stored(there, k));
        }
    }
    assert forall|k: K| #[trigger] back.dom().contains(k) == m.dom().contains(k) by {
        assert(stored(back, k) == stored(m, k));
    }
    assert(back.dom() =~= m.dom());
    assert forall|k: K| #[trigger] m.dom().contains(k) implies back[k] == m[k] by {
        assert(stored(back, k) == stored(m, k));
    }
    assert(back =~= m);
}

/// Reverting a delta undoes applying it: from any state that the delta starts
/// at, going forward and then backward leads back to that state, provided no
/// channel of the delta changes the same key twice.
pub proof fn law_revert_undoes_apply(m: StateModel, d: DeltaModel)
    requires
        d.fits(m),
        d.starts_at(m),
        d.changes_once(),
    ensures
        m.moved(d, true).moved(d, false) == m,
{
    lemma_seq_round_trip(m.vars, d.vars);
    lemma_seq_round_trip(m.memory, d.memory);
    lemma_map_round_trip(m.extended, d.extended);
    lemma_map_round_trip(m.strings, d.strings);
}

/// Applying a delta again after reverting it leads to the same state.
pub proof fn law_apply_redoes_revert(m: StateModel, d: DeltaModel)
    requires
        d.fits(m),
        d.starts_at(m),
        d.changes_once(),
    ensures
        m.moved(d, true).moved(d, false).moved(d, true) == m.moved(d, true),
{
    law_revert_undoes_apply(m, d);
}

impl StateDelta {
    /// The value of a delta.
    pub open spec fn view(&self) -> DeltaModel {
        DeltaModel {
            frame_before: self.frame_counter_before,
            frame_after: self.frame_counter_after,
            vars: Seq::new(
                self.state_vars@.len(),
                |i: int|
                    Change {
                        key: self.state_vars@[i].0 as int,
                        before: self.state_vars@[i].1,
                        after: self.state_vars@[i].2,
                    },
            ),
            memory: Seq::new(
                self.memory@.len(),
                |i: int|
                    Change {
                        key: self.memory@[i].0 as int,
                        before: self.memory@[i].1,
                        after: self.memory@[i].2,
                    },
            ),
            extended: Seq::new(
                self.extended@.len(),
                |i: int|
                    Change {
                        key: self.extended@[i].0,
                        before: self.extended@[i].1,
                        after: self.extended@[i].2,
                    },
            ),
            strings: Seq::new(
                self.string_properties@.len(),
                |i: int|
                    Change {
                        key: self.string_properties@[i].0@,
                        before: text::maybe_view(self.string_properties@[i].1),
                        after: text::maybe_view(self.string_properties@[i].2),
                    },
            ),
        }
    }

    /// Number of changes in all channels together.
    pub fn total_changes(&self) -> (r: usize)
        requires
            self@.vars.len() + self@.memory.len() + self@.extended.len() + self@.strings.len()
                <= usize::MAX,
        ensures
            r == self@.vars.len() + self@.memory.len() + self@.extended.len() + self@.strings.len(),
    {
        self.state_vars.len() + self.memory.len() + self.extended.len()
            + self.string_properties.len()
    }
}

impl State {
    fn move_vars(&mut self, d: &StateDelta, forward: bool)
        requires
            old(self).wf(),
            d@.fits(old(self)@),
        ensures
            final(self).wf(),
            final(self)@ == (StateModel {
                vars: moved_seq(old(self)@.vars, d@.vars, forward),
                ..old(self)@
            }),
            final(self)@.vars.len() == old(self)@.vars.len(),
    {
        let ghost all = d@.vars;
        let mut i: usize = 0;
        assert(all.subrange(0, 0) =~= Seq::<Change<int, i32>>::empty());
        while i < d.state_vars.len()
            invariant
                i <= d.state_vars@.len(),
                all == d@.vars,
                d@.fits(old(self)@),
                self.wf(),
                self@ == (StateModel {
                    vars: moved_seq(old(self)@.vars, all.subrange(0, i as int), forward),
                    ..old(self)@
                }),
                self@.vars.len() == old(self)@.vars.len(),
            decreases d.state_vars@.len() - i,
        {
            let slot: u32 = d.state_vars[i].0;
            let value: i32 = if forward {
                d.state_vars[i].2
            } else {
                d.state_vars[i].1
            };
            assert(all[i as int].key == slot);
            assert(all.subrange(0, i + 1).drop_last() =~= all.subrange(0, i as int));
            self.state_vars.set(slot as usize, value);
            i += 1;
        }
        assert(all.subrange(0, i as int) =~= all);
    }

    fn move_memory(&mut self, d: &StateDelta, forward: bool)
        requires
            old(self).wf(),
            d@.fits(old(self)@),
        ensures
            final(self).wf(),
            final(self)@ == (StateModel {
                memory: moved_seq(old(self)@.memory, d@.memory, forward),
                ..old(self)@
            }),
    {
        let ghost all = d@.memory;
        let mut i: usize = 0;
        assert(all.subrange(0, 0) =~= Seq::<Change<int, u8>>::empty());
        while i < d.memory.len()
            invariant
                i <= d.memory@.len(),
                all == d@.memory,
                d@.fits(old(self)@),
                self.wf(),
                self@ == (StateModel {
                    memory: moved_seq(old(self)@.memory, all.subrange(0, i as int), forward),
                    ..old(self)@
                }),
                self@.memory.len() == old(self)@.memory.len(),
            decreases d.memory@.len() - i,
        {
            let addr: u32 = d.memory[i].0;
            let value: u8 = if forward {
                d.memory[i].2
            } else {
                d.memory[i].1
            };
            assert(all[i as int].key == addr);
            assert(all.subrange(0, i + 1).drop_last() =~= all.subrange(0, i as int));
            self.memory.set(addr as usize, value);
            i += 1;
        }
        assert(all.subrange(0, i as int) =~= all);
    }

    fn move_extended(&mut self, d: &StateDelta, forward: bool)
        requires
            old(self).wf(),
        ensures
            final(self).wf(),
            final(self)@ == (StateModel {
                extended: moved_map(old(self)@.extended, d@.extended, forward),
                ..old(self)@
            }),
    {
        let ghost all = d@.extended;
        let mut i: usize = 0;
        assert(all.subrange(0, 0) =~= Seq::<Change<i32, Option<i32>>>::empty());
        while i < d.extended.len()
            invariant
                i <= d.extended@.len(),
                all == d@.extended,
                self.wf(),
                self@ == (StateModel {
                    extended: moved_map(old(self)@.extended, all.subrange(0, i as int), forward),
                    ..old(self)@
                }),
            decreases d.extended@.len() - i,
        {
            let addr: i32 = d.extended[i].0;
            let value: Option<i32> = if forward {
                d.extended[i].2
            } else {
                d.extended[i].1
            };
            assert(all.subrange(0, i + 1).drop_last() =~= all.subrange(0, i as int));
            match value {
                Some(v) => fx::cell_insert(&mut self.extended, addr, v),
                None => fx::cell_remove(&mut self.extended, addr),
            }
            i += 1;
        }
        assert(all.subrange(0, i as int) =~= all);
    }

    fn move_strings(&mut self, d: &StateDelta, forward: bool)
        requires
            old(self).wf(),
        ensures
            final(self).wf(),
            final(self)@ == (StateModel {
                strings: moved_map(old(self)@.strings, d@.strings, forward),
                ..old(self)@
            }),
    {
        let ghost all = d@.strings;
        let mut i: usize = 0;
        assert(all.subrange(0, 0) =~= Seq::<Change<Seq<char>, Option<Seq<char>>>>::empty());
        while i < d.string_properties.len()
            invariant
                i <= d.string_properties@.len(),
                all == d@.strings,
                self.wf(),
                self@ == (StateModel {
                    strings: moved_map(old(self)@.strings, all.subrange(0, i as int), forward),
                    ..old(self)@
                }),
            decreases d.string_properties@.len() - i,
        {
            let name: &String = &d.string_properties[i].0;
            let value: &Option<String> = if forward {
                &d.string_properties[i].2
            } else {
                &d.string_properties[i].1
            };
            assert(all.subrange(0, i + 1).drop_last() =~= all.subrange(0, i as int));
            match value {
                Some(v) => self.string_properties.insert(name.clone(), v.clone()),
                None => self.string_properties.remove(name.as_str()),
            }
            i += 1;
        }
        assert(all.subrange(0, i as int) =~= all);
    }

    /// Moves the state forward along a delta: every recorded key takes its
    /// value after.
    pub fn apply_delta(&mut self, d: &StateDelta)
        requires
            old(self).wf(),
            d@.fits(old(self)@),
        ensures
            final(self).wf(),
            final(self)@ == old(self)@.moved(d@, true),
    {
        self.move_vars(d, true);
        self.move_memory(d, true);
        self.move_extended(d, true);
        self.move_strings(d, true);
        self.frame_counter = d.frame_counter_after;
    }

    /// Moves the state backward along a delta: every recorded key takes its
    /// value before.
    pub fn revert_delta(&mut self, d: &StateDelta)
        requires
            old(self).wf(),
            d@.fits(old(self)@),
        ensures
            final(self).wf(),
            final(self)@ == old(self)@.moved(d@, false),
    {
        self.move_vars(d, false);
        self.move_memory(d, false);
        self.move_extended(d, false);
        self.move_strings(d, false);
        self.frame_counter = d.frame_counter_before;
    }
}

} // verus!

//! When two loops are the same.

use super::{
    ComparisonShape, ComparisonSource, CounterEntry, CycleCharge, IndirectRead, LoopDescriptor,
    LoopModel, PointerEntry, PointerModel, Precondition, WriteEntry,
};
use crate::text;
use crate::types;
use vstd::prelude::*;

verus! {

/// Do two descriptors describe the same loop? The order of their pointers does
/// not count.
pub open spec fn same_loop(a: LoopModel, b: LoopModel) -> bool {
    &&& (LoopModel { pointers: a.pointers, ..b }) == a
    &&& a.pointers.to_multiset() == b.pointers.to_multiset()
}

/// Being the same loop is an equivalence.
pub proof fn law_same_loop_is_an_equivalence(a: LoopModel, b: LoopModel, c: LoopModel)
    ensures
        same_loop(a, a),
        same_loop(a, b) ==> same_loop(b, a),
        same_loop(a, b) && same_loop(b, c) ==> same_loop(a, c),
{
}

/// Swapping two pointers leaves the loop the same.
pub proof fn law_swapped_pointers_are_the_same(a: LoopModel, i: int, j: int)
    requires
        0 <= i < a.pointers.len(),
        0 <= j < a.pointers.len(),
    ensures
        same_loop(
            a,
            (LoopModel {
                pointers: a.pointers.update(i, a.pointers[j]).update(j, a.pointers[i]),
                ..a
            }),
        ),
{
    let p = a.pointers;
    let q = p.update(i, p[j]);
    vstd::seq_lib::to_multiset_update(p, i, p[j]);
    vstd::seq_lib::to_multiset_update(q, j, p[i]);
    p.to_multiset_ensures();
    assert(p.contains(p[i]));
    assert(q[j] == p[j]);
    assert(q.update(j, p[i]).to_multiset() =~= p.to_multiset());
}

// ---------------------------------------------------------------------------
// Parts
// ---------------------------------------------------------------------------

fn same_names(a: &Vec<String>, b: &Vec<String>) -> (r: bool)
    ensures
        r == (text::views(a@) == text::views(b@)),
{
    if a.len() != b.len() {
        assert(text::views(a@).len() != text::views(b@).len());
        return false;
    }
    let mut i: usize = 0;
    while i < a.len()
        invariant
            i <= a@.len() == b@.len(),
            forall|j: int| 0 <= j < i ==> text::views(a@)[j] == text::views(b@)[j],
        decreases a@.len() - i,
    {
        if a[i] != b[i] {
            assert(text::views(a@)[i as int] != text::views(b@)[i as int]);
            return false;
        }
        i += 1;
    }
    assert(text::views(a@) =~= text::views(b@));
    true
}

fn same_name(a: &Option<String>, b: &Option<String>) -> (r: bool)
    ensures
        r == (text::maybe_view(*a) == text::maybe_view(*b)),
{
    match (a, b) {
        (Some(x), Some(y)) => *x == *y,
        (None, None) => true,
        _ => false,
    }
}

fn same_counter(a: &CounterEntry, b: &CounterEntry) -> (r: bool)
    ensures
        r == (a.view() == b.view()),
{
    a.property == b.property && a.self_property == b.self_property && a.step == b.step
}

fn same_pointer(a: &PointerEntry, b: &PointerEntry) -> (r: bool)
    ensures
        r == (a.view() == b.view()),
{
    a.property == b.property && a.self_property == b.self_property && a.base_step == b.base_step
        && a.flag_property == b.flag_property && a.flag_bit == b.flag_bit
}

fn same_read(a: &IndirectRead, b: &IndirectRead) -> (r: bool)
    ensures
        r == (a.view() == b.view()),
{
    same_name(&a.seg_property, &b.seg_property) && a.seg_times_sixteen == b.seg_times_sixteen
        && a.pointer_property == b.pointer_property && a.intermediate_property
        == b.intermediate_property
}

fn same_write(a: &WriteEntry, b: &WriteEntry) -> (r: bool)
    ensures
        r == (a.view() == b.view()),
{
    let parts = match (&a.addr_decomposition, &b.addr_decomposition) {
        (Some(x), Some(y)) => x.0 == y.0 && x.1 == y.1,
        (None, None) => true,
        _ => false,
    };
    let reads = match (&a.val_indirect_read, &b.val_indirect_read) {
        (Some(x), Some(y)) => same_read(x, y),
        (None, None) => true,
        _ => false,
    };
    parts && reads && a.addr_property == b.addr_property && a.val_property == b.val_property
        && types::same_expr(&a.addr_expr, &b.addr_expr) && types::same_expr(
        &a.val_expr,
        &b.val_expr,
    )
}

fn same_writes(a: &Vec<WriteEntry>, b: &Vec<WriteEntry>) -> (r: bool)
    ensures
        r == (super::stores_view(a@) == super::stores_view(b@)),
{
    if a.len() != b.len() {
        assert(super::stores_view(a@).len() != super::stores_view(b@).len());
        return false;
    }
    let mut i: usize = 0;
    while i < a.len()
        invariant
            i <= a@.len() == b@.len(),
            forall|j: int| 0 <= j < i ==> super::stores_view(a@)[j] == super::stores_view(b@)[j],
        decreases a@.len() - i,
    {
        if !same_write(&a[i], &b[i]) {
            assert(super::stores_view(a@)[i as int] != super::stores_view(b@)[i as int]);
            return false;
        }
        i += 1;
    }
    assert(super::stores_view(a@) =~= super::stores_view(b@));
    true
}

fn same_source(a: &ComparisonSource, b: &ComparisonSource) -> (r: bool)
    ensures
        r == (a.view() == b.view()),
{
    match (a, b) {
        (
            ComparisonSource::Pointer { seg_property: s, seg_times_sixteen: x, ptr_property: p },
            ComparisonSource::Pointer { seg_property: t, seg_times_sixteen: y, ptr_property: q },
        ) => *s == *t && *x == *y && *p == *q,
        (
            ComparisonSource::Accumulator { byte_property: s, word_property: p },
            ComparisonSource::Accumulator { byte_property: t, word_property: q },
        ) => *s == *t && *p == *q,
        _ => false,
    }
}

fn same_shape(a: &ComparisonShape, b: &ComparisonShape) -> (r: bool)
    ensures
        r == (a.view() == b.view()),
{
    a.width == b.width && a.dst_seg_property == b.dst_seg_property && a.dst_seg_times_sixteen
        == b.dst_seg_times_sixteen && a.dst_ptr_property == b.dst_ptr_property && same_source(
        &a.source,
        &b.source,
    ) && same_name(&a.rep_type_property, &b.rep_type_property)
}

fn same_charge(a: &CycleCharge, b: &CycleCharge) -> (r: bool)
    ensures
        r == (a.view() == b.view()),
{
    a.property == b.property && a.per_iter == b.per_iter
}

// ---------------------------------------------------------------------------
// Pointers
// ---------------------------------------------------------------------------

/// Counts how often a pointer occurs.
fn occurrences(all: &Vec<PointerEntry>, p: &PointerEntry) -> (r: usize)
    ensures
        r == super::pointers_view(all@).to_multiset().count(p.view()),
{
    let ghost list = super::pointers_view(all@);
    let mut n: usize = 0;
    let mut i: usize = 0;
    proof {
        list.take(0).to_multiset_ensures();
    }
    while i < all.len()
        invariant
            i <= all@.len(),
            n <= i,
            list == super::pointers_view(all@),
            n == list.take(i as int).to_multiset().count(p.view()),
        decreases all@.len() - i,
    {
        proof {
            assert(list.take(i + 1) =~= list.take(i as int).push(list[i as int]));
            list.take(i as int).to_multiset_ensures();
        }
        if same_pointer(&all[i], p) {
            n += 1;
        }
        i += 1;
    }
    assert(list.take(i as int) =~= list);
    n
}

/// Tells whether every pointer of one list occurs as often in another.
fn as_often(a: &Vec<PointerEntry>, b: &Vec<PointerEntry>) -> (r: bool)
    ensures
        r == forall|p: PointerModel|
            super::pointers_view(a@).contains(p) ==> #[trigger] super::pointers_view(
                a@,
            ).to_multiset().count(p) == super::pointers_view(b@).to_multiset().count(p),
{
    let ghost x = super::pointers_view(a@);
    let ghost y = super::pointers_view(b@);
    let mut i: usize = 0;
    while i < a.len()
        invariant
            i <= a@.len(),
            x == super::pointers_view(a@),
            y == super::pointers_view(b@),
            forall|j: int|
                0 <= j < i ==> x.to_multiset().count(#[trigger] x[j]) == y.to_multiset().count(
                    x[j],
                ),
        decreases a@.len() - i,
    {
        if occurrences(a, &a[i]) != occurrences(b, &a[i]) {
            assert(x[i as int] == a@[i as int].view());
            assert(x.contains(x[i as int]));
            return false;
        }
        assert(x[i as int] == a@[i as int].view());
        i += 1;
    }
    true
}

/// Tells whether two lists hold the same pointers, in whatever order.
fn same_pointers(a: &Vec<PointerEntry>, b: &Vec<PointerEntry>) -> (r: bool)
    ensures
        r == (super::pointers_view(a@).to_multiset() == super::pointers_view(b@).to_multiset()),
{
    let ghost x = super::pointers_view(a@);
    let ghost y = super::pointers_view(b@);
    let r = as_often(a, b) && as_often(b, a);
    proof {
        x.to_multiset_ensures();
        y.to_multiset_ensures();
        if r {
            assert forall|p: PointerModel|
                #[trigger] x.to_multiset().count(p) == y.to_multiset().count(p) by {
                if !x.contains(p) && !y.contains(p) {
                    assert(x.to_multiset().count(p) == 0);
                    assert(y.to_multiset().count(p) == 0);
                }
            }
            assert(x.to_multiset() =~= y.to_multiset());
        }
    }
    r
}

// ---------------------------------------------------------------------------
// Loops
// ---------------------------------------------------------------------------

impl PartialEq for LoopDescriptor {
    fn eq(&self, other: &Self) -> (r: bool) {
        let counters = match (&self.counter, &other.counter) {
            (Some(x), Some(y)) => same_counter(x, y),
            (None, None) => true,
            _ => false,
        };
        let charges = match (&self.per_iter_cycles, &other.per_iter_cycles) {
            (Some(x), Some(y)) => same_charge(x, y),
            (None, None) => true,
            _ => false,
        };
        let shapes = match (&self.comparison_shape, &other.comparison_shape) {
            (Some(x), Some(y)) => same_shape(x, y),
            (None, None) => true,
            _ => false,
        };
        let guards = match (&self.precondition, &other.precondition) {
            (Some(Precondition::NoOverrides(x)), Some(Precondition::NoOverrides(y))) => {
                types::same_tests(x, y)
            },
            (None, None) => true,
            _ => false,
        };
        counters && charges && shapes && guards && self.key_property == other.key_property
            && self.key_value == other.key_value && self.ip_property == other.ip_property
            && self.ip_self_property == other.ip_self_property && self.ip_advance_literal
            == other.ip_advance_literal && same_names(
            &self.predicate_properties,
            &other.predicate_properties,
        ) && types::same_test(&self.predicate, &other.predicate) && self.predicate_means_stay
            == other.predicate_means_stay && same_pointers(&self.pointers, &other.pointers)
            && same_writes(&self.writes, &other.writes) && self.flag_conditioned
            == other.flag_conditioned && self.bulk_class == other.bulk_class && same_name(
            &self.ip_extra_advance_slot,
            &other.ip_extra_advance_slot,
        )
    }
}

impl vstd::std_specs::cmp::PartialEqSpecImpl for LoopDescriptor {
    open spec fn obeys_eq_spec() -> bool {
        true
    }

    open spec fn eq_spec(&self, other: &Self) -> bool {
        same_loop(self.view(), other.view())
    }
}

} // verus!

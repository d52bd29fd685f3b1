//! Self-loops: dispatch families whose instruction either stays or advances.
//!
//! A cabinet dispatches many registers on one key property. For one key value
//! the bodies of those registers can describe a loop that repeats the same
//! instruction: one register stays or advances, one counts down, some step, some
//! feed memory writes. The recogniser finds such loops by shape alone; the names
//! of properties are opaque to it.

use crate::pattern::loop_descriptor::family::DispatchFamily;
use crate::pattern::loop_descriptor::index::AssignmentIndex;
use crate::types;
use crate::types::{Assignment, AssignmentModel, Expr, ExprModel, StyleTest, TestModel};
use crate::text;
use vstd::prelude::*;

pub mod charge;
pub mod comparison;
pub mod dispatch;
pub mod dispatch_laws;
pub mod equality;
pub mod family;
pub mod index;
pub mod meaning;
pub mod opcode;
pub mod renaming;
pub mod runtime;
pub mod shapes;
pub mod store_laws;
pub mod walk;

pub use runtime::{evaluate_loop_predicate, evaluate_precondition, evaluate_style_test_runtime};

verus! {

/// One recognised loop. Two descriptors are equal whatever the order of their
/// pointers.
#[derive(Debug, Clone)]
pub struct LoopDescriptor {
    /// The dispatch key property.
    pub key_property: String,
    /// The key value whose bodies form the loop.
    pub key_value: i64,
    /// The property that stays or advances.
    pub ip_property: String,
    /// The prior value that both of its branches read.
    pub ip_self_property: String,
    /// What the advancing branch adds.
    pub ip_advance_literal: i32,
    /// Properties that the predicate tests, in order, each once.
    pub predicate_properties: Vec<String>,
    /// The test between staying and advancing.
    pub predicate: StyleTest,
    /// Whether the loop stays when the predicate holds.
    pub predicate_means_stay: bool,
    /// The property that counts down.
    pub counter: Option<CounterEntry>,
    /// The properties that step, in source order.
    pub pointers: Vec<PointerEntry>,
    /// The memory writes, in source order of their address properties.
    pub writes: Vec<WriteEntry>,
    /// Whether the predicate tests more than one property.
    pub flag_conditioned: bool,
    /// What a bulk application would have to do.
    pub bulk_class: BulkClass,
    /// What one iteration costs.
    pub per_iter_cycles: Option<CycleCharge>,
    /// What the staying branch subtracts, where that is a variable.
    pub ip_extra_advance_slot: Option<String>,
    /// The comparison that a read-only loop performs.
    pub comparison_shape: Option<ComparisonShape>,
    /// What must hold for the loop's own bodies to be in effect.
    pub precondition: Option<Precondition>,
}

/// What must hold for a loop's own bodies to be in effect.
#[derive(Debug, Clone, PartialEq)]
pub enum Precondition {
    /// None of these tests holds.
    NoOverrides(Vec<StyleTest>),
}

/// The cost of one iteration: how much to add, and to which property.
#[derive(Debug, Clone, PartialEq)]
pub struct CycleCharge {
    /// The property that accumulates the cost.
    pub property: String,
    /// The cost of one iteration.
    pub per_iter: i32,
}

/// A comparison of memory with memory, or of memory with a register.
#[derive(Debug, Clone, PartialEq)]
pub struct ComparisonShape {
    /// Bytes compared per iteration.
    pub width: u8,
    /// Segment of the destination operand.
    pub dst_seg_property: String,
    /// Whether the segment is multiplied by 16.
    pub dst_seg_times_sixteen: bool,
    /// Pointer of the destination operand.
    pub dst_ptr_property: String,
    /// The other operand.
    pub source: ComparisonSource,
    /// The property that selects between repeating while equal and while not.
    pub rep_type_property: Option<String>,
}

/// The second operand of a comparison.
#[derive(Debug, Clone, PartialEq)]
pub enum ComparisonSource {
    /// Memory behind a second pointer.
    Pointer {
        /// Its segment.
        seg_property: String,
        /// Whether the segment is multiplied by 16.
        seg_times_sixteen: bool,
        /// The pointer.
        ptr_property: String,
    },
    /// A register.
    Accumulator {
        /// Where its byte is.
        byte_property: String,
        /// Where its word is.
        word_property: String,
    },
}

/// What a bulk application of a loop has to do.
#[derive(Debug, Clone, Copy, PartialEq, Eq, Structural)]
pub enum BulkClass {
    /// Walk pointers without writing.
    ReadOnly,
    /// Write a constant.
    Fill,
    /// Write what is read through a pointer.
    Copy,
    /// Anything else.
    PerIter,
}

/// A property that counts down.
#[derive(Debug, Clone, PartialEq)]
pub struct CounterEntry {
    /// The property.
    pub property: String,
    /// The prior value that it counts down from.
    pub self_property: String,
    /// The amount per iteration.
    pub step: i32,
}

/// A property that steps up or down.
#[derive(Debug, Clone, PartialEq)]
pub struct PointerEntry {
    /// The property.
    pub property: String,
    /// The prior value that it steps from.
    pub self_property: String,
    /// The amount per iteration.
    pub base_step: i32,
    /// The property whose bit selects the direction.
    pub flag_property: String,
    /// The bit.
    pub flag_bit: u32,
}

/// One memory write per iteration.
#[derive(Debug, Clone, PartialEq)]
pub struct WriteEntry {
    /// The property that holds the address.
    pub addr_property: String,
    /// The property that holds the value; empty where none was found.
    pub val_property: String,
    /// The address.
    pub addr_expr: Expr,
    /// The value.
    pub val_expr: Expr,
    /// Segment and pointer, where the address is `segment * 16 + pointer`.
    pub addr_decomposition: Option<(String, String)>,
    /// Where the value comes from, if it is read through a pointer.
    pub val_indirect_read: Option<IndirectRead>,
}

/// A value that is read through a pointer by way of another property.
#[derive(Debug, Clone, PartialEq, Eq)]
pub struct IndirectRead {
    /// The segment that is added to the pointer, where there is one.
    pub seg_property: Option<String>,
    /// Whether the segment is multiplied by 16.
    pub seg_times_sixteen: bool,
    /// The pointer.
    pub pointer_property: String,
    /// The property in between.
    pub intermediate_property: String,
}

// ---------------------------------------------------------------------------
// Mathematical values
// ---------------------------------------------------------------------------

/// The value of a [`CounterEntry`].
#[verifier::ext_equal]
pub struct CounterModel {
    pub property: Seq<char>,
    pub prior: Seq<char>,
    pub step: i32,
}

/// The value of a [`PointerEntry`].
#[verifier::ext_equal]
pub struct PointerModel {
    pub property: Seq<char>,
    pub prior: Seq<char>,
    pub step: i32,
    pub flag: Seq<char>,
    pub bit: u32,
}

/// The value of an [`IndirectRead`].
#[verifier::ext_equal]
pub struct IndirectModel {
    pub segment: Option<Seq<char>>,
    pub scaled: bool,
    pub pointer: Seq<char>,
    pub through: Seq<char>,
}

/// The value of a [`WriteEntry`].
#[verifier::ext_equal]
pub struct StoreModel {
    pub addr_property: Seq<char>,
    pub val_property: Seq<char>,
    pub addr: ExprModel,
    pub value: ExprModel,
    pub parts: Option<(Seq<char>, Seq<char>)>,
    pub read: Option<IndirectModel>,
}

/// The value of a [`CycleCharge`].
#[verifier::ext_equal]
pub struct ChargeModel {
    pub property: Seq<char>,
    pub per_iter: i32,
}

/// The value of a [`ComparisonSource`].
#[verifier::ext_equal]
pub enum SourceModel {
    Pointer { segment: Seq<char>, scaled: bool, pointer: Seq<char> },
    Accumulator { byte: Seq<char>, word: Seq<char> },
}

/// The value of a [`ComparisonShape`].
#[verifier::ext_equal]
pub struct ComparisonModel {
    pub width: u8,
    pub segment: Seq<char>,
    pub scaled: bool,
    pub pointer: Seq<char>,
    pub source: SourceModel,
    pub repeat: Option<Seq<char>>,
}

/// The value of a [`LoopDescriptor`].
#[verifier::ext_equal]
pub struct LoopModel {
    pub key: Seq<char>,
    pub value: i64,
    pub ip: Seq<char>,
    pub ip_prior: Seq<char>,
    pub ip_advance: i32,
    pub tested: Seq<Seq<char>>,
    pub predicate: TestModel,
    pub holds_means_stay: bool,
    pub counter: Option<CounterModel>,
    pub pointers: Seq<PointerModel>,
    pub writes: Seq<StoreModel>,
    pub flag_conditioned: bool,
    pub class: BulkClass,
    pub charge: Option<ChargeModel>,
    pub ip_extra: Option<Seq<char>>,
    pub comparison: Option<ComparisonModel>,
    pub overrides: Option<Seq<TestModel>>,
}

impl CounterEntry {
    /// The value of a counter.
    pub open spec fn view(&self) -> CounterModel {
        CounterModel { property: self.property@, prior: self.self_property@, step: self.step }
    }
}

impl PointerEntry {
    /// The value of a pointer.
    pub open spec fn view(&self) -> PointerModel {
        PointerModel {
            property: self.property@,
            prior: self.self_property@,
            step: self.base_step,
            flag: self.flag_property@,
            bit: self.flag_bit,
        }
    }
}

impl IndirectRead {
    /// The value of an indirect read.
    pub open spec fn view(&self) -> IndirectModel {
        IndirectModel {
            segment: text::maybe_view(self.seg_property),
            scaled: self.seg_times_sixteen,
            pointer: self.pointer_property@,
            through: self.intermediate_property@,
        }
    }
}

impl WriteEntry {
    /// The value of a write.
    pub open spec fn view(&self) -> StoreModel {
        StoreModel {
            addr_property: self.addr_property@,
            val_property: self.val_property@,
            addr: self.addr_expr.view(),
            value: self.val_expr.view(),
            parts: match self.addr_decomposition {
                Some((s, p)) => Some((s@, p@)),
                None => None,
            },
            read: match self.val_indirect_read {
                Some(r) => Some(r.view()),
                None => None,
            },
        }
    }
}

impl CycleCharge {
    /// The value of a charge.
    pub open spec fn view(&self) -> ChargeModel {
        ChargeModel { property: self.property@, per_iter: self.per_iter }
    }
}

impl ComparisonSource {
    /// The value of a source.
    pub open spec fn view(&self) -> SourceModel {
        match self {
            ComparisonSource::Pointer { seg_property, seg_times_sixteen, ptr_property } => {
                SourceModel::Pointer {
                    segment: seg_property@,
                    scaled: *seg_times_sixteen,
                    pointer: ptr_property@,
                }
            },
            ComparisonSource::Accumulator { byte_property, word_property } => {
                SourceModel::Accumulator { byte: byte_property@, word: word_property@ }
            },
        }
    }
}

impl ComparisonShape {
    /// The value of a comparison.
    pub open spec fn view(&self) -> ComparisonModel {
        ComparisonModel {
            width: self.width,
            segment: self.dst_seg_property@,
            scaled: self.dst_seg_times_sixteen,
            pointer: self.dst_ptr_property@,
            source: self.source.view(),
            repeat: text::maybe_view(self.rep_type_property),
        }
    }
}

/// The values of a list of pointers.
pub open spec fn pointers_view(v: Seq<PointerEntry>) -> Seq<PointerModel> {
    Seq::new(v.len(), |i: int| v[i].view())
}

/// The values of a list of writes.
pub open spec fn stores_view(v: Seq<WriteEntry>) -> Seq<StoreModel> {
    Seq::new(v.len(), |i: int| v[i].view())
}

impl LoopDescriptor {
    /// The value of a descriptor.
    pub open spec fn view(&self) -> LoopModel {
        LoopModel {
            key: self.key_property@,
            value: self.key_value,
            ip: self.ip_property@,
            ip_prior: self.ip_self_property@,
            ip_advance: self.ip_advance_literal,
            tested: text::views(self.predicate_properties@),
            predicate: self.predicate.view(),
            holds_means_stay: self.predicate_means_stay,
            counter: match self.counter {
                Some(c) => Some(c.view()),
                None => None,
            },
            pointers: pointers_view(self.pointers@),
            writes: stores_view(self.writes@),
            flag_conditioned: self.flag_conditioned,
            class: self.bulk_class,
            charge: match self.per_iter_cycles {
                Some(c) => Some(c.view()),
                None => None,
            },
            ip_extra: text::maybe_view(self.ip_extra_advance_slot),
            comparison: match self.comparison_shape {
                Some(c) => Some(c.view()),
                None => None,
            },
            overrides: match self.precondition {
                Some(Precondition::NoOverrides(tests)) => Some(types::tests_view(tests@)),
                None => None,
            },
        }
    }
}

// ---------------------------------------------------------------------------
// Recognition
// ---------------------------------------------------------------------------

/// Are `found` the loops that a list of assignments describes: for every number
/// with a body in the family the loop of that number, if it describes one, in
/// increasing order of the numbers?
pub open spec fn are_loops_of(found: Seq<LoopModel>, v: Seq<AssignmentModel>) -> bool {
    match family::family_of(v) {
        Some(f) => {
            &&& forall|i: int, j: int|
                0 <= i < j < found.len() ==> (#[trigger] found[i]).value < (
                #[trigger] found[j]).value
            &&& forall|i: int|
                0 <= i < found.len() ==> family::has_body(
                    f.members,
                    (#[trigger] found[i]).value,
                ) && opcode::loop_for(f, found[i].value, v) == Some(found[i])
            &&& forall|k: i64|
                family::has_body(f.members, k) && (#[trigger] opcode::loop_for(f, k, v)) is Some
                    ==> exists|i: int| 0 <= i < found.len() && (#[trigger] found[i]).value == k
        },
        None => found.len() == 0,
    }
}

/// The values of a list of descriptors.
pub open spec fn loops_view(v: Seq<LoopDescriptor>) -> Seq<LoopModel> {
    Seq::new(v.len(), |i: int| v[i].view())
}

/// Recognises the loops in a list of assignments.
pub fn recognise_loops(assignments: &[Assignment]) -> (r: Vec<LoopDescriptor>)
    ensures
        are_loops_of(loops_view(r@), types::assignments_view(assignments@)),
{
    let ghost v = types::assignments_view(assignments@);
    let found = family::read_dispatches(assignments);
    let family: DispatchFamily<'_> = match family::collect_dispatch_family(assignments, &found) {
        Some(f) => f,
        None => {
            return Vec::new();
        },
    };
    let index = AssignmentIndex::build(assignments);
    let numbers: Vec<i64> = family::list_numbers(&family);
    let ghost f = family.view();
    let mut out: Vec<LoopDescriptor> = Vec::new();
    let mut i: usize = 0;
    while i < numbers.len()
        invariant
            i <= numbers@.len(),
            family.wf(),
            index.wf(),
            f == family.view(),
            v == index.view(),
            family::family_of(v) == Some(f),
            family::increasing(numbers@),
            forall|k: i64| #[trigger]
                numbers@.contains(k) <==> family::has_body(f.members, k),
            forall|j: int|
                0 <= j < out@.len() ==> i > 0 && (#[trigger] out@[j]).view().value
                    <= numbers@[i - 1] && family::has_body(f.members, out@[j].view().value)
                    && opcode::loop_for(f, out@[j].view().value, v) == Some(out@[j].view()),
            forall|a: int, b: int|
                0 <= a < b < out@.len() ==> (#[trigger] out@[a]).view().value < (
                #[trigger] out@[b]).view().value,
            forall|n: int|
                0 <= n < i && opcode::loop_for(f, #[trigger] numbers@[n], v) is Some
                    ==> exists|j: int|
                    0 <= j < out@.len() && (#[trigger] out@[j]).view().value == numbers@[n],
        decreases numbers@.len() - i,
    {
        let k: i64 = numbers[i];
        assert(numbers@.contains(k));
        let ghost before = out@;
        if let Some(d) = opcode::recognise_one_opcode(&family, k, &index) {
            out.push(d);
            assert(out@[before.len() as int].view().value == k);
        }
        assert forall|n: int|
            0 <= n < i && opcode::loop_for(f, #[trigger] numbers@[n], v) is Some implies exists|j: int|
            0 <= j < out@.len() && (#[trigger] out@[j]).view().value == numbers@[n] by {
            let j = choose|j: int|
                0 <= j < before.len() && (#[trigger] before[j]).view().value == numbers@[n];
            assert(out@[j].view().value == numbers@[n]);
        }
        i += 1;
    }
    proof {
        let r = loops_view(out@);
        assert forall|k: i64|
            family::has_body(f.members, k) && (#[trigger] opcode::loop_for(f, k, v)) is Some
                implies exists|j: int| 0 <= j < r.len() && (#[trigger] r[j]).value == k by {
            assert(numbers@.contains(k));
            let n = choose|n: int| 0 <= n < numbers@.len() && numbers@[n] == k;
            assert(opcode::loop_for(f, numbers@[n], v) is Some);
            let j = choose|j: int|
                0 <= j < out@.len() && (#[trigger] out@[j]).view().value == numbers@[n];
            assert(r[j].value == k);
        }
    }
    out
}

} // verus!

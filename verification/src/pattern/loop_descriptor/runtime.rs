//! Conditions of loops, decided on a running state.

use crate::number;
use crate::pattern::loop_descriptor::{LoopDescriptor, LoopModel, Precondition};
use crate::program::{CompiledProgram, ProgramModel};
use crate::state::{State, StateModel};
use crate::types;
use crate::types::{Expr, ExprModel, StyleTest, TestModel};
use vstd::prelude::*;

verus! {

/// What a test compares a property with: the number of a literal. Any other
/// expression stands for a number that no property has.
pub open spec fn compared_number(e: ExprModel) -> i64 {
    match e {
        ExprModel::Number(bits) => number::as_i64(bits),
        _ => i64::MIN,
    }
}

/// Does a condition hold? A property that is not there counts as 0.
pub open spec fn test_holds(
    t: TestModel,
    p: ProgramModel,
    s: StateModel,
    slots: Seq<i32>,
) -> bool
    decreases t,
{
    match t {
        TestModel::Single(property, value) => p.property_or_zero(s, slots, property)
            == compared_number(*value),
        TestModel::And(parts) => all_hold(parts, p, s, slots),
        TestModel::Or(parts) => some_holds(parts, p, s, slots),
    }
}

/// Do all of the conditions hold?
pub open spec fn all_hold(
    parts: Seq<TestModel>,
    p: ProgramModel,
    s: StateModel,
    slots: Seq<i32>,
) -> bool
    decreases parts,
{
    forall|i: int| 0 <= i < parts.len() ==> test_holds(#[trigger] parts[i], p, s, slots)
}

/// Does one of the conditions hold?
pub open spec fn some_holds(
    parts: Seq<TestModel>,
    p: ProgramModel,
    s: StateModel,
    slots: Seq<i32>,
) -> bool
    decreases parts,
{
    exists|i: int| 0 <= i < parts.len() && test_holds(#[trigger] parts[i], p, s, slots)
}

/// Decides a condition.
pub fn evaluate_style_test_runtime(
    t: &StyleTest,
    program: &CompiledProgram,
    state: &State,
    slots: &[i32],
) -> (r: bool)
    requires
        state.wf(),
        program.view().fits(slots@),
    ensures
        r == test_holds(t.view(), program.view(), state@, slots@),
    decreases t,
{
    match t {
        StyleTest::Single { property, value } => {
            assert(t.view() == TestModel::Single(property@, Box::new(value.view())));
            let current: i32 = program.read_or_zero(state, slots, property.as_str());
            let wanted: i64 = match value {
                Expr::Literal(v) => v.to_i64(),
                _ => {
                    proof {
                        types::lemma_calc(value);
                    }
                    i64::MIN
                },
            };
            current as i64 == wanted
        },
        StyleTest::And(parts) => {
            let ghost m = types::tests_view(parts@);
            assert(t.view() == TestModel::And(m));
            let mut i: usize = 0;
            while i < parts.len()
                invariant
                    i <= parts@.len(),
                    state.wf(),
                    program.view().fits(slots@),
                    m == types::tests_view(parts@),
                    *t == StyleTest::And(*parts),
                    t.view() == TestModel::And(m),
                    forall|j: int|
                        0 <= j < i ==> test_holds(
                            #[trigger] m[j],
                            program.view(),
                            state@,
                            slots@,
                        ),
                decreases parts@.len() - i,
            {
                assert(m[i as int] == parts@[i as int].view());
                if !evaluate_style_test_runtime(&parts[i], program, state, slots) {
                    assert(!test_holds(m[i as int], program.view(), state@, slots@));
                    return false;
                }
                i += 1;
            }
            true
        },
        StyleTest::Or(parts) => {
            let ghost m = types::tests_view(parts@);
            assert(t.view() == TestModel::Or(m));
            let mut i: usize = 0;
            while i < parts.len()
                invariant
                    i <= parts@.len(),
                    state.wf(),
                    program.view().fits(slots@),
                    m == types::tests_view(parts@),
                    *t == StyleTest::Or(*parts),
                    t.view() == TestModel::Or(m),
                    forall|j: int|
                        0 <= j < i ==> !test_holds(
                            #[trigger] m[j],
                            program.view(),
                            state@,
                            slots@,
                        ),
                decreases parts@.len() - i,
            {
                assert(m[i as int] == parts@[i as int].view());
                if evaluate_style_test_runtime(&parts[i], program, state, slots) {
                    assert(test_holds(m[i as int], program.view(), state@, slots@));
                    return true;
                }
                i += 1;
            }
            false
        },
    }
}

/// Are the bodies of a loop in effect: does none of its overrides hold?
pub open spec fn undisturbed(
    overrides: Option<Seq<TestModel>>,
    p: ProgramModel,
    s: StateModel,
    slots: Seq<i32>,
) -> bool {
    match overrides {
        Some(tests) => !some_holds(tests, p, s, slots),
        None => true,
    }
}

/// Decides whether none of the overrides holds.
pub fn evaluate_precondition(
    pre: &Precondition,
    program: &CompiledProgram,
    state: &State,
    slots: &[i32],
) -> (r: bool)
    requires
        state.wf(),
        program.view().fits(slots@),
    ensures
        match pre {
            Precondition::NoOverrides(tests) => r == undisturbed(
                Some(types::tests_view(tests@)),
                program.view(),
                state@,
                slots@,
            ),
        },
{
    match pre {
        Precondition::NoOverrides(tests) => {
            let ghost m = types::tests_view(tests@);
            let mut i: usize = 0;
            while i < tests.len()
                invariant
                    i <= tests@.len(),
                    state.wf(),
                    program.view().fits(slots@),
                    m == types::tests_view(tests@),
                    *pre == Precondition::NoOverrides(*tests),
                    forall|j: int|
                        0 <= j < i ==> !test_holds(
                            #[trigger] m[j],
                            program.view(),
                            state@,
                            slots@,
                        ),
                decreases tests@.len() - i,
            {
                assert(m[i as int] == tests@[i as int].view());
                if evaluate_style_test_runtime(&tests[i], program, state, slots) {
                    assert(test_holds(m[i as int], program.view(), state@, slots@));
                    return false;
                }
                i += 1;
            }
            true
        },
    }
}

/// Does the loop stay for another iteration?
pub open spec fn stays(d: LoopModel, p: ProgramModel, s: StateModel, slots: Seq<i32>) -> bool {
    test_holds(d.predicate, p, s, slots) == d.holds_means_stay
}

/// Decides whether the loop stays for another iteration.
pub fn evaluate_loop_predicate(
    descriptor: &LoopDescriptor,
    program: &CompiledProgram,
    state: &State,
    slots: &[i32],
) -> (r: bool)
    requires
        state.wf(),
        program.view().fits(slots@),
    ensures
        r == stays(descriptor.view(), program.view(), state@, slots@),
{
    evaluate_style_test_runtime(&descriptor.predicate, program, state, slots)
        == descriptor.predicate_means_stay
}

} // verus!

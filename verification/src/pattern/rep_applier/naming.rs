//! Loops are applied by what their names stand for, not by the names.

use super::copy;
use super::copy::CopyShape;
use super::fill;
use super::read_only;
use super::{CommitMode, Context};
use crate::pattern::loop_descriptor::renaming;
use crate::pattern::loop_descriptor::renaming::comparisons;
use crate::pattern::loop_descriptor::renaming::laws as renamed;
use crate::pattern::loop_descriptor::renaming::parts;
use crate::pattern::loop_descriptor::renaming::Renaming;
use crate::pattern::loop_descriptor::runtime;
use crate::pattern::loop_descriptor::{LoopModel, SourceModel, StoreModel};
use crate::pattern::rep_applier as rep;
use crate::types::{ExprModel, TestModel};
use vstd::prelude::*;

verus! {

/// Every name stands for the same value before and after a renaming, and the same
/// addresses are virtual and windowed.
pub open spec fn stands_for_same(f: Renaming, before: Context, after: Context) -> bool {
    &&& forall|x: Seq<char>| after.get(#[trigger] f(x)) == before.get(x)
    &&& after.program.regions == before.program.regions
    &&& after.state.window == before.state.window
}

proof fn lemma_test_holds(f: Renaming, t: TestModel, before: Context, after: Context)
    requires
        stands_for_same(f, before, after),
    ensures
        runtime::test_holds(renaming::test(f, t), after.program, after.state, after.slots)
            == runtime::test_holds(t, before.program, before.state, before.slots),
    decreases t,
{
    match t {
        TestModel::Single(property, value) => {
            assert(after.get(f(property)) == before.get(property));
            assert(runtime::compared_number(renaming::expr(f, *value)) == runtime::compared_number(
                *value,
            ));
        },
        TestModel::And(list) => {
            renaming::lemma_tests(f, list);
            lemma_tests_hold(f, list, before, after);
            let other = renaming::tests(f, list);
            if runtime::all_hold(list, before.program, before.state, before.slots) {
                assert forall|i: int| 0 <= i < other.len() implies runtime::test_holds(
                    #[trigger] other[i],
                    after.program,
                    after.state,
                    after.slots,
                ) by {
                    assert(runtime::test_holds(
                        list[i],
                        before.program,
                        before.state,
                        before.slots,
                    ));
                }
            }
            if runtime::all_hold(other, after.program, after.state, after.slots) {
                assert forall|i: int| 0 <= i < list.len() implies runtime::test_holds(
                    #[trigger] list[i],
                    before.program,
                    before.state,
                    before.slots,
                ) by {
                    assert(runtime::test_holds(other[i], after.program, after.state, after.slots));
                }
            }
        },
        TestModel::Or(list) => {
            lemma_tests_hold(f, list, before, after);
            lemma_some_holds(f, list, before, after);
        },
    }
}

proof fn lemma_tests_hold(f: Renaming, list: Seq<TestModel>, before: Context, after: Context)
    requires
        stands_for_same(f, before, after),
    ensures
        forall|i: int|
            #![trigger renaming::tests(f, list)[i]]
            #![trigger list[i]]
            0 <= i < list.len() ==> runtime::test_holds(
                renaming::tests(f, list)[i],
                after.program,
                after.state,
                after.slots,
            ) == runtime::test_holds(list[i], before.program, before.state, before.slots),
    decreases list,
{
    renaming::lemma_tests(f, list);
    assert forall|i: int|
        #![trigger renaming::tests(f, list)[i]]
        #![trigger list[i]]
        0 <= i < list.len() implies runtime::test_holds(
        renaming::tests(f, list)[i],
        after.program,
        after.state,
        after.slots,
    ) == runtime::test_holds(list[i], before.program, before.state, before.slots) by {
        assert(decreases_to!(list => list[i]));
        lemma_test_holds(f, list[i], before, after);
    }
}

proof fn lemma_some_holds(f: Renaming, list: Seq<TestModel>, before: Context, after: Context)
    requires
        stands_for_same(f, before, after),
        forall|i: int|
            #![trigger renaming::tests(f, list)[i]]
            #![trigger list[i]]
            0 <= i < list.len() ==> runtime::test_holds(
                renaming::tests(f, list)[i],
                after.program,
                after.state,
                after.slots,
            ) == runtime::test_holds(list[i], before.program, before.state, before.slots),
    ensures
        runtime::some_holds(
            renaming::tests(f, list),
            after.program,
            after.state,
            after.slots,
        ) == runtime::some_holds(list, before.program, before.state, before.slots),
{
    renaming::lemma_tests(f, list);
    let other = renaming::tests(f, list);
    if runtime::some_holds(list, before.program, before.state, before.slots) {
        let i = choose|i: int|
            0 <= i < list.len() && runtime::test_holds(
                #[trigger] list[i],
                before.program,
                before.state,
                before.slots,
            );
        assert(runtime::test_holds(other[i], after.program, after.state, after.slots));
    }
    if runtime::some_holds(other, after.program, after.state, after.slots) {
        let i = choose|i: int|
            0 <= i < other.len() && runtime::test_holds(
                #[trigger] other[i],
                after.program,
                after.state,
                after.slots,
            );
        assert(runtime::test_holds(list[i], before.program, before.state, before.slots));
    }
}

proof fn lemma_undisturbed(f: Renaming, d: LoopModel, before: Context, after: Context)
    requires
        stands_for_same(f, before, after),
    ensures
        runtime::undisturbed(
            renamed::loop_model(f, d).overrides,
            after.program,
            after.state,
            after.slots,
        ) == runtime::undisturbed(d.overrides, before.program, before.state, before.slots),
{
    if let Some(list) = d.overrides {
        lemma_tests_hold(f, list, before, after);
        lemma_some_holds(f, list, before, after);
    }
}

proof fn lemma_virtual(before: Context, after: Context, from: int, to: int)
    requires
        after.program.regions == before.program.regions,
        after.state.window == before.state.window,
    ensures
        after.program.touches_virtual(after.state, from, to)
            == before.program.touches_virtual(before.state, from, to),
{
}

/// A loop goes on under other names exactly if it goes on: whether its test holds is a
/// matter of what its names stand for.
pub proof fn law_stay_ignores_names(f: Renaming, d: LoopModel, before: Context, after: Context)
    requires
        stands_for_same(f, before, after),
    ensures
        runtime::stays(renamed::loop_model(f, d), after.program, after.state, after.slots)
            == runtime::stays(d, before.program, before.state, before.slots),
{
    lemma_test_holds(f, d.predicate, before, after);
}

proof fn lemma_all_prepared(f: Renaming, v: Seq<StoreModel>, before: Context, after: Context)
    requires
        stands_for_same(f, before, after),
    ensures
        fill::all_prepared(renamed::stores(f, v), after) == fill::all_prepared(v, before),
    decreases v.len(),
{
    if v.len() > 0 {
        let rest = v.drop_last();
        lemma_all_prepared(f, rest, before, after);
        assert(renamed::stores(f, v).drop_last() =~= renamed::stores(f, rest));
        let w = v.last();
        if let Some((segment, _)) = w.parts {
            assert(after.get(f(segment)) == before.get(segment));
        }
        if let ExprModel::Var(x, _) = w.value {
            assert(after.get(f(x)) == before.get(x));
        }
    }
}

/// A fill under other names writes the same bytes to the same places, or is refused for
/// the same reason.
pub proof fn law_fill_ignores_names(
    f: Renaming,
    d: LoopModel,
    before: Context,
    after: Context,
    commit: CommitMode,
)
    requires
        stands_for_same(f, before, after),
    ensures
        fill::fill_plan(renamed::loop_model(f, d), after, commit) == fill::fill_plan(
            d,
            before,
            commit,
        ),
{
    lemma_undisturbed(f, d, before, after);
    if let Some(c) = d.counter {
        assert(after.get(f(c.property)) == before.get(c.property));
    }
    if d.pointers.len() == 1 {
        let p = d.pointers[0];
        assert(after.get(f(p.prior)) == before.get(p.prior));
        assert(after.get(f(p.flag)) == before.get(p.flag));
        lemma_all_prepared(f, d.writes, before, after);
    }
    assert forall|from: int, to: int|
        after.program.touches_virtual(after.state, from, to)
            == before.program.touches_virtual(before.state, from, to) by {
        lemma_virtual(before, after, from, to);
    }
}

/// A renamed shape of a copy.
pub open spec fn copy_shape(f: Renaming, m: CopyShape) -> CopyShape {
    CopyShape {
        dst: parts::pointer(f, m.dst),
        src: parts::pointer(f, m.src),
        dst_segment: f(m.dst_segment),
        src_segment: f(m.src_segment),
        src_scaled: m.src_scaled,
    }
}

proof fn lemma_complaints(f: Renaming, v: Seq<StoreModel>, dst: Seq<char>, src: Seq<char>)
    requires
        renaming::is_renaming(f),
    ensures
        copy::first_pointer_complaint(renamed::stores(f, v), f(dst), f(src))
            == copy::first_pointer_complaint(v, dst, src),
    decreases v.len(),
{
    if v.len() > 0 {
        lemma_complaints(f, v.drop_last(), dst, src);
        assert(renamed::stores(f, v).drop_last() =~= renamed::stores(f, v.drop_last()));
    }
}

/// Every write reads memory through a pointer, and has a segment and a pointer.
spec fn all_copy(v: Seq<StoreModel>) -> bool {
    forall|i: int| 0 <= i < v.len() ==> (#[trigger] v[i]).parts is Some && v[i].read is Some
}

proof fn lemma_no_complaint(v: Seq<StoreModel>, dst: Seq<char>, src: Seq<char>)
    requires
        copy::first_pointer_complaint(v, dst, src) is None,
    ensures
        all_copy(v),
    decreases v.len(),
{
    if v.len() > 0 {
        lemma_no_complaint(v.drop_last(), dst, src);
        assert forall|i: int| 0 <= i < v.len() implies (#[trigger] v[i]).parts is Some
            && v[i].read is Some by {
            if i < v.len() - 1 {
                assert(v.drop_last()[i] == v[i]);
            }
        }
    }
}

proof fn lemma_segment_complaints(
    f: Renaming,
    v: Seq<StoreModel>,
    dst: Seq<char>,
    src: Seq<char>,
    scaled: bool,
)
    requires
        renaming::is_renaming(f),
        all_copy(v),
    ensures
        copy::first_segment_complaint(renamed::stores(f, v), f(dst), f(src), scaled)
            == copy::first_segment_complaint(v, dst, src, scaled),
    decreases v.len(),
{
    if v.len() > 0 {
        let rest = v.drop_last();
        assert forall|i: int| 0 <= i < rest.len() implies (#[trigger] rest[i]).parts is Some
            && rest[i].read is Some by {
            assert(v[i] == rest[i]);
        }
        lemma_segment_complaints(f, rest, dst, src, scaled);
        assert(renamed::stores(f, v).drop_last() =~= renamed::stores(f, rest));
        assert(v[v.len() - 1].parts is Some);
    }
}

proof fn lemma_pointer_named(f: Renaming, d: LoopModel, prior: Seq<char>, n: int)
    requires
        renaming::is_renaming(f),
        0 <= n <= d.pointers.len(),
    ensures
        rep::pointer_named(comparisons::pointers(f, d.pointers).subrange(0, n), f(prior))
            == match rep::pointer_named(d.pointers.subrange(0, n), prior) {
            Some(p) => Some(parts::pointer(f, p)),
            None => None,
        },
    decreases n,
{
    if n > 0 {
        lemma_pointer_named(f, d, prior, n - 1);
        let list = d.pointers;
        let other = comparisons::pointers(f, list);
        assert(list.subrange(0, n).drop_last() =~= list.subrange(0, n - 1));
        assert(other.subrange(0, n).drop_last() =~= other.subrange(0, n - 1));
    }
}

proof fn lemma_copy_shape(f: Renaming, d: LoopModel)
    requires
        renaming::is_renaming(f),
    ensures
        copy::copy_shape(renamed::loop_model(f, d)) == match copy::copy_shape(d) {
            Ok(m) => Ok(copy_shape(f, m)),
            Err(m) => Err(m),
        },
{
    if d.pointers.len() == 2 && d.writes.len() > 0 {
        if let (Some((_, dst)), Some(read)) = (d.writes[0].parts, d.writes[0].read) {
            let src = read.pointer;
            let n = d.pointers.len() as int;
            let other = comparisons::pointers(f, d.pointers);
            lemma_complaints(f, d.writes, dst, src);
            lemma_pointer_named(f, d, dst, n);
            lemma_pointer_named(f, d, src, n);
            assert(d.pointers.subrange(0, n) =~= d.pointers);
            assert(other.subrange(0, n) =~= other);
            if copy::first_pointer_complaint(d.writes, dst, src) is None {
                lemma_no_complaint(d.writes, dst, src);
                if let Some(segment) = read.segment {
                    lemma_segment_complaints(
                        f,
                        d.writes,
                        (d.writes[0].parts->0).0,
                        segment,
                        read.scaled,
                    );
                }
            }
        }
    }
}

/// A copy under other names moves the same bytes between the same places, or is refused
/// for the same reason.
pub proof fn law_copy_ignores_names(
    f: Renaming,
    d: LoopModel,
    before: Context,
    after: Context,
    commit: CommitMode,
)
    requires
        renaming::is_renaming(f),
        stands_for_same(f, before, after),
    ensures
        copy::copy_plan(renamed::loop_model(f, d), after, commit) == copy::copy_plan(
            d,
            before,
            commit,
        ),
{
    lemma_undisturbed(f, d, before, after);
    lemma_copy_shape(f, d);
    if let Some(c) = d.counter {
        assert(after.get(f(c.property)) == before.get(c.property));
    }
    if let Ok(m) = copy::copy_shape(d) {
        assert(after.get(f(m.dst.prior)) == before.get(m.dst.prior));
        assert(after.get(f(m.src.prior)) == before.get(m.src.prior));
        assert(after.get(f(m.dst_segment)) == before.get(m.dst_segment));
        assert(after.get(f(m.src_segment)) == before.get(m.src_segment));
        assert(after.get(f(m.dst.flag)) == before.get(m.dst.flag));
    }
    assert forall|from: int, to: int|
        after.program.touches_virtual(after.state, from, to)
            == before.program.touches_virtual(before.state, from, to) by {
        lemma_virtual(before, after, from, to);
    }
}

/// A comparison under other names compares the same operands, or is refused for the same
/// reason.
pub proof fn law_comparison_ignores_names(
    f: Renaming,
    d: LoopModel,
    before: Context,
    after: Context,
    commit: CommitMode,
)
    requires
        renaming::is_renaming(f),
        stands_for_same(f, before, after),
    ensures
        read_only::read_only_plan(renamed::loop_model(f, d), after, commit)
            == read_only::read_only_plan(d, before, commit),
{
    lemma_undisturbed(f, d, before, after);
    if let Some(c) = d.counter {
        assert(after.get(f(c.property)) == before.get(c.property));
    }
    if let Some(m) = d.comparison {
        let n = d.pointers.len() as int;
        assert(d.pointers.subrange(0, n) =~= d.pointers);
        assert(comparisons::pointers(f, d.pointers).subrange(0, n) =~= comparisons::pointers(
            f,
            d.pointers,
        ));
        lemma_pointer_named(f, d, m.pointer, n);
        if let Some(p) = read_only::destination(d, m) {
            assert(after.get(f(p.prior)) == before.get(p.prior));
            assert(after.get(f(p.flag)) == before.get(p.flag));
            if let Some(q) = read_only::origin(d, m) {
                assert(f(q.flag) == f(p.flag) <==> q.flag == p.flag);
            }
        }
        assert(after.get(f(m.segment)) == before.get(m.segment));
        if let Some(slot) = m.repeat {
            assert(after.get(f(slot)) == before.get(slot));
        }
        match m.source {
            SourceModel::Pointer { segment, pointer, .. } => {
                assert(after.get(f(segment)) == before.get(segment));
                assert(f(pointer) == f(m.pointer) <==> pointer == m.pointer);
                lemma_pointer_named(f, d, pointer, n);
                if let Some(q) = read_only::origin(d, m) {
                    assert(after.get(f(q.prior)) == before.get(q.prior));
                }
            },
            SourceModel::Accumulator { byte, word } => {
                assert(after.get(f(byte)) == before.get(byte));
                assert(after.get(f(word)) == before.get(word));
            },
        }
    }
}

} // verus!

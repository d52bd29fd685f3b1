//! Comparisons under other names.

use super::super::comparison;
use super::super::family::MemberModel;
use super::super::index;
use super::super::walk;
use super::super::{ComparisonModel, PointerModel, SourceModel};
use super::families;
use super::parts;
use super::Renaming;
use crate::types::{AssignmentModel, CalcKind, ExprModel, TestModel};
use vstd::prelude::*;

verus! {

/// A renamed segment and pointer, where there are any.
pub open spec fn triple(f: Renaming, t: Option<(Seq<char>, Seq<char>, bool)>) -> Option<
    (Seq<char>, Seq<char>, bool),
> {
    match t {
        Some((s, p, scaled)) => Some((f(s), f(p), scaled)),
        None => None,
    }
}

/// A renamed source of a comparison.
pub open spec fn source(f: Renaming, m: SourceModel) -> SourceModel {
    match m {
        SourceModel::Pointer { segment, scaled, pointer } => SourceModel::Pointer {
            segment: f(segment),
            scaled,
            pointer: f(pointer),
        },
        SourceModel::Accumulator { byte, word } => SourceModel::Accumulator {
            byte: f(byte),
            word: f(word),
        },
    }
}

/// A renamed comparison, where there is one.
pub open spec fn comparison_model(f: Renaming, m: Option<ComparisonModel>) -> Option<
    ComparisonModel,
> {
    match m {
        Some(c) => Some(
            ComparisonModel {
                width: c.width,
                segment: f(c.segment),
                scaled: c.scaled,
                pointer: f(c.pointer),
                source: source(f, c.source),
                repeat: super::name(f, c.repeat),
            },
        ),
        None => None,
    }
}

/// Renamed pointers.
pub open spec fn pointers(f: Renaming, v: Seq<PointerModel>) -> Seq<PointerModel> {
    Seq::new(v.len(), |i: int| parts::pointer(f, v[i]))
}

// ---------------------------------------------------------------------------
// Operands
// ---------------------------------------------------------------------------

proof fn lemma_plain_subtraction(f: Renaming, e: ExprModel)
    ensures
        comparison::plain_subtraction(super::expr(f, e)) == parts::pair(
            f,
            comparison::plain_subtraction(e),
        ),
{
    parts::lemma_binary(f, e, CalcKind::Sub);
    parts::lemma_binary(f, e, CalcKind::Add);
    parts::lemma_call_of_two(f, e);
    if let Some((_, b)) = e.binary(CalcKind::Add) {
        parts::lemma_negated(f, b);
    }
}

proof fn lemma_subtraction(f: Renaming, e: ExprModel)
    ensures
        comparison::subtraction(super::expr(f, e)) == parts::pair(f, comparison::subtraction(e)),
{
    let inner = match e {
        ExprModel::Cond(_, fallback) => *fallback,
        _ => e,
    };
    parts::lemma_binary(f, inner, CalcKind::Add);
    lemma_plain_subtraction(f, inner);
    if let Some((a, b)) = inner.binary(CalcKind::Add) {
        lemma_plain_subtraction(f, a);
        lemma_plain_subtraction(f, b);
    }
}

proof fn lemma_reads_through(
    f: Renaming,
    e: ExprModel,
    mirrors: Seq<Seq<char>>,
    v: Seq<AssignmentModel>,
)
    requires
        super::is_renaming(f),
    ensures
        comparison::reads_through(
            super::expr(f, e),
            super::names(f, mirrors),
            super::assignments(f, v),
        ) == comparison::reads_through(e, mirrors, v),
    decreases e,
{
    match e {
        ExprModel::Var(x, None) => {
            families::lemma_assigned(f, v, x);
            if let Some(ExprModel::Call(_, args)) = index::assigned(v, x) {
                super::lemma_names_in_list(f, args, true);
                super::lemma_any_of(f, walk::names_in_list(args, true), mirrors);
            }
        },
        ExprModel::Calc(kind, list) => {
            super::lemma_exprs(f, list);
            if kind.is_arithmetic() && list.len() == 2 {
                assert(decreases_to!(list => list[0]));
                assert(decreases_to!(list => list[1]));
                lemma_reads_through(f, list[0], mirrors, v);
                lemma_reads_through(f, list[1], mirrors, v);
            }
        },
        ExprModel::Call(_, args) => {
            super::lemma_names_in_list(f, args, true);
            super::lemma_any_of(f, walk::names_in_list(args, true), mirrors);
        },
        _ => {},
    }
}

proof fn lemma_segment_in_argument(f: Renaming, e: ExprModel, target: Seq<char>)
    requires
        super::is_renaming(f),
    ensures
        comparison::segment_in_argument(super::expr(f, e), f(target)) == triple(
            f,
            comparison::segment_in_argument(e, target),
        ),
{
    parts::lemma_segmented(f, e);
    parts::lemma_binary(f, e, CalcKind::Add);
}

proof fn lemma_traced(
    f: Renaming,
    e: ExprModel,
    target: Seq<char>,
    v: Seq<AssignmentModel>,
    hops: nat,
)
    requires
        super::is_renaming(f),
    ensures
        comparison::traced(super::expr(f, e), f(target), super::assignments(f, v), hops) == triple(
            f,
            comparison::traced(e, target, v, hops),
        ),
    decreases hops, e, walk::children(e).len() + 1,
{
    match e {
        ExprModel::Var(x, None) => {
            families::lemma_assigned(f, v, x);
            if let Some(body) = index::assigned(v, x) {
                if hops > 0 {
                    lemma_traced(f, body, target, v, (hops - 1) as nat);
                }
            }
        },
        ExprModel::Call(_, _) => {
            lemma_traced_from(f, e, target, v, hops, 0);
        },
        ExprModel::Calc(_, _) => {
            lemma_traced_from(f, e, target, v, hops, 0);
        },
        _ => {},
    }
}

proof fn lemma_traced_from(
    f: Renaming,
    e: ExprModel,
    target: Seq<char>,
    v: Seq<AssignmentModel>,
    hops: nat,
    i: nat,
)
    requires
        super::is_renaming(f),
    ensures
        comparison::traced_from(super::expr(f, e), f(target), super::assignments(f, v), hops, i)
            == triple(f, comparison::traced_from(e, target, v, hops, i)),
    decreases hops, e, walk::children(e).len() - i,
{
    super::lemma_children(f, e);
    walk::lemma_children(e);
    let list = walk::children(e);
    super::lemma_exprs(f, list);
    if i < list.len() {
        assert(decreases_to!(e => list[i as int]));
        lemma_traced(f, list[i as int], target, v, hops);
        lemma_segment_in_argument(f, list[i as int], target);
        lemma_traced_from(f, e, target, v, hops, i + 1);
    }
}

proof fn lemma_accumulator(f: Renaming, e: ExprModel)
    ensures
        comparison::accumulator(super::expr(f, e)) == match comparison::accumulator(e) {
            Some(m) => Some(source(f, m)),
            None => None,
        },
{
    parts::lemma_binary(f, e, CalcKind::Add);
}

// ---------------------------------------------------------------------------
// The property that selects the kind of repetition
// ---------------------------------------------------------------------------

proof fn lemma_reaches(
    f: Renaming,
    e: ExprModel,
    targets: Seq<Seq<char>>,
    v: Seq<AssignmentModel>,
    depth: nat,
)
    requires
        super::is_renaming(f),
    ensures
        comparison::reaches(
            super::expr(f, e),
            super::names(f, targets),
            super::assignments(f, v),
            depth,
        ) == comparison::reaches(e, targets, v, depth),
    decreases depth,
{
    if depth > 0 {
        let w = super::assignments(f, v);
        let list = walk::names_in(e, false);
        let renamed = walk::names_in(super::expr(f, e), false);
        super::lemma_mentions(f, e, targets);
        super::lemma_names_in(f, e, false);
        assert forall|i: int| 0 <= i < list.len() implies (index::assigned(
            w,
            #[trigger] renamed[i],
        ) matches Some(body) && comparison::reaches(
            body,
            super::names(f, targets),
            w,
            (depth - 1) as nat,
        )) == (index::assigned(v, list[i]) matches Some(body) && comparison::reaches(
            body,
            targets,
            v,
            (depth - 1) as nat,
        )) by {
            families::lemma_assigned(f, v, list[i]);
            if let Some(body) = index::assigned(v, list[i]) {
                lemma_reaches(f, body, targets, v, (depth - 1) as nat);
            }
        }
        if comparison::reaches(e, targets, v, depth) && !walk::mentions(e, targets) {
            let i = choose|i: int|
                0 <= i < list.len() && (index::assigned(v, #[trigger] list[i]) matches Some(body)
                    && comparison::reaches(body, targets, v, (depth - 1) as nat));
            assert(index::assigned(w, renamed[i]) is Some);
        }
        if comparison::reaches(super::expr(f, e), super::names(f, targets), w, depth)
            && !walk::mentions(e, targets) {
            let i = choose|i: int|
                0 <= i < renamed.len() && (index::assigned(w, #[trigger] renamed[i]) matches Some(
                    body,
                ) && comparison::reaches(
                    body,
                    super::names(f, targets),
                    w,
                    (depth - 1) as nat,
                ));
            assert(index::assigned(v, list[i]) is Some);
        }
    }
}

/// Renamed tests against numbers.
pub open spec fn compared(f: Renaming, v: Seq<(Seq<char>, i64)>) -> Seq<(Seq<char>, i64)> {
    Seq::new(v.len(), |i: int| (f(v[i].0), v[i].1))
}

proof fn lemma_literal_tests(f: Renaming, t: TestModel)
    ensures
        comparison::literal_tests(super::test(f, t)) == compared(f, comparison::literal_tests(t)),
    decreases t,
{
    match t {
        TestModel::Single(_, _) => {
            assert(comparison::literal_tests(super::test(f, t)) =~= compared(
                f,
                comparison::literal_tests(t),
            ));
        },
        TestModel::And(list) => {
            lemma_literal_tests_in(f, list);
        },
        TestModel::Or(list) => {
            lemma_literal_tests_in(f, list);
        },
    }
}

proof fn lemma_literal_tests_in(f: Renaming, v: Seq<TestModel>)
    ensures
        comparison::literal_tests_in(super::tests(f, v)) == compared(
            f,
            comparison::literal_tests_in(v),
        ),
    decreases v,
{
    super::lemma_tests(f, v);
    if v.len() > 0 {
        let rest = v.subrange(0, v.len() - 1);
        assert(decreases_to!(v => rest));
        assert(decreases_to!(v => v[v.len() - 1]));
        lemma_literal_tests_in(f, rest);
        lemma_literal_tests(f, v[v.len() - 1]);
        super::lemma_tests(f, rest);
        assert(super::tests(f, v).subrange(0, v.len() - 1) =~= super::tests(f, rest));
    }
    assert(comparison::literal_tests_in(super::tests(f, v)) =~= compared(
        f,
        comparison::literal_tests_in(v),
    ));
}

proof fn lemma_varies(f: Renaming, tests: Seq<(Seq<char>, i64)>, slot: Seq<char>)
    requires
        super::is_renaming(f),
    ensures
        comparison::varies(compared(f, tests), f(slot)) == comparison::varies(tests, slot),
{
    let renamed = compared(f, tests);
    if comparison::varies(tests, slot) {
        let (i, j) = choose|i: int, j: int|
            0 <= i < tests.len() && 0 <= j < tests.len() && (#[trigger] tests[i]).0 == slot && (
            #[trigger] tests[j]).0 == slot && tests[i].1 != tests[j].1;
        assert(renamed[i].0 == f(slot) && renamed[j].0 == f(slot));
    }
    if comparison::varies(renamed, f(slot)) {
        let (i, j) = choose|i: int, j: int|
            0 <= i < renamed.len() && 0 <= j < renamed.len() && (#[trigger] renamed[i]).0 == f(slot)
                && (#[trigger] renamed[j]).0 == f(slot) && renamed[i].1 != renamed[j].1;
        assert(tests[i].0 == slot && tests[j].0 == slot);
    }
}

/// What varies among renamed tests is a renamed name.
proof fn lemma_varies_is_renamed(f: Renaming, tests: Seq<(Seq<char>, i64)>, x: Seq<char>) -> (slot:
    Seq<char>)
    requires
        super::is_renaming(f),
        comparison::varies(compared(f, tests), x),
    ensures
        f(slot) == x,
{
    let renamed = compared(f, tests);
    let (i, j) = choose|i: int, j: int|
        0 <= i < renamed.len() && 0 <= j < renamed.len() && (#[trigger] renamed[i]).0 == x && (
        #[trigger] renamed[j]).0 == x && renamed[i].1 != renamed[j].1;
    tests[i].0
}

proof fn lemma_compared_outputs(f: Renaming, v: Seq<MemberModel>, k: i64)
    ensures
        comparison::compared_outputs(families::members(f, v), k) == super::names(
            f,
            comparison::compared_outputs(v, k),
        ),
    decreases v.len(),
{
    if v.len() > 0 {
        lemma_compared_outputs(f, v.drop_last(), k);
        assert(families::members(f, v).drop_last() =~= families::members(f, v.drop_last()));
        if v.last().bodies.contains_key(k) {
            lemma_subtraction(f, v.last().bodies[k]);
        }
    }
    assert(comparison::compared_outputs(families::members(f, v), k) =~= super::names(
        f,
        comparison::compared_outputs(v, k),
    ));
}

proof fn lemma_selects_repeat(
    f: Renaming,
    tests: Seq<(Seq<char>, i64)>,
    outputs: Seq<Seq<char>>,
    v: Seq<AssignmentModel>,
    slot: Seq<char>,
)
    requires
        super::is_renaming(f),
    ensures
        comparison::selects_repeat(
            compared(f, tests),
            super::names(f, outputs),
            super::assignments(f, v),
            f(slot),
        ) == comparison::selects_repeat(tests, outputs, v, slot),
{
    lemma_varies(f, tests, slot);
    families::lemma_assigned(f, v, slot);
    if let Some(body) = index::assigned(v, slot) {
        lemma_reaches(f, body, outputs, v, 3);
    }
}

proof fn lemma_only_selector(
    f: Renaming,
    tests: Seq<(Seq<char>, i64)>,
    outputs: Seq<Seq<char>>,
    v: Seq<AssignmentModel>,
    slot: Seq<char>,
)
    requires
        super::is_renaming(f),
    ensures
        comparison::only_selector(
            compared(f, tests),
            super::names(f, outputs),
            super::assignments(f, v),
            f(slot),
        ) == comparison::only_selector(tests, outputs, v, slot),
{
    let r = compared(f, tests);
    let o = super::names(f, outputs);
    let w = super::assignments(f, v);
    lemma_selects_repeat(f, tests, outputs, v, slot);
    if comparison::only_selector(tests, outputs, v, slot) {
        assert forall|t: Seq<char>| comparison::selects_repeat(r, o, w, t) implies t == f(slot) by {
            let x = lemma_varies_is_renamed(f, tests, t);
            lemma_selects_repeat(f, tests, outputs, v, x);
            assert(comparison::selects_repeat(tests, outputs, v, x));
        }
    }
    if comparison::only_selector(r, o, w, f(slot)) {
        assert forall|t: Seq<char>| comparison::selects_repeat(tests, outputs, v, t) implies t
            == slot by {
            lemma_selects_repeat(f, tests, outputs, v, t);
            assert(comparison::selects_repeat(r, o, w, f(t)));
        }
    }
}

proof fn lemma_repeat_selector(
    f: Renaming,
    predicate: TestModel,
    members: Seq<MemberModel>,
    k: i64,
    v: Seq<AssignmentModel>,
)
    requires
        super::is_renaming(f),
    ensures
        comparison::repeat_selector(
            super::test(f, predicate),
            families::members(f, members),
            k,
            super::assignments(f, v),
        ) == super::name(f, comparison::repeat_selector(predicate, members, k, v)),
{
    if let TestModel::Or(list) = predicate {
        let tests = comparison::literal_tests_in(list);
        let outputs = comparison::compared_outputs(members, k);
        super::lemma_tests(f, list);
        lemma_literal_tests_in(f, list);
        lemma_compared_outputs(f, members, k);
        let r = compared(f, tests);
        let o = super::names(f, outputs);
        let w = super::assignments(f, v);
        let before = comparison::repeat_selector(predicate, members, k, v);
        let after = comparison::repeat_selector(
            super::test(f, predicate),
            families::members(f, members),
            k,
            w,
        );
        if let Some(s) = before {
            assert(comparison::only_selector(tests, outputs, v, s));
            lemma_only_selector(f, tests, outputs, v, s);
            assert(comparison::only_selector(r, o, w, f(s)));
            assert(after is Some);
            assert(comparison::only_selector(r, o, w, after->0));
        }
        if let Some(t) = after {
            assert(comparison::only_selector(r, o, w, t));
            let s = lemma_varies_is_renamed(f, tests, t);
            lemma_only_selector(f, tests, outputs, v, s);
            assert(comparison::only_selector(tests, outputs, v, s));
            assert(before is Some);
        }
    }
}

// ---------------------------------------------------------------------------
// The comparison
// ---------------------------------------------------------------------------

pub(super) proof fn lemma_priors(f: Renaming, v: Seq<PointerModel>)
    ensures
        comparison::priors(pointers(f, v)) == super::names(f, comparison::priors(v)),
{
    assert(comparison::priors(pointers(f, v)) =~= super::names(f, comparison::priors(v)));
}

proof fn lemma_is_register(f: Renaming, e: ExprModel, mirrors: Seq<Seq<char>>)
    requires
        super::is_renaming(f),
    ensures
        comparison::is_register(super::expr(f, e), super::names(f, mirrors))
            == comparison::is_register(e, mirrors),
{
    if let Some(x) = e.bare_var() {
        super::lemma_contains(f, mirrors, x);
    }
}

proof fn lemma_compared_by(
    f: Renaming,
    m: MemberModel,
    k: i64,
    p: Seq<PointerModel>,
    v: Seq<AssignmentModel>,
)
    requires
        super::is_renaming(f),
    ensures
        comparison::compared_by(
            families::member(f, m),
            k,
            pointers(f, p),
            super::assignments(f, v),
        ) == parts::pair(f, comparison::compared_by(m, k, p, v)),
{
    let q = pointers(f, p);
    let others = forall|i: int| 0 <= i < p.len() ==> (#[trigger] p[i]).property != m.property;
    let others_renamed = forall|i: int|
        0 <= i < q.len() ==> (#[trigger] q[i]).property != families::member(f, m).property;
    assert(others == others_renamed) by {
        if others {
            assert forall|i: int| 0 <= i < q.len() implies (#[trigger] q[i]).property
                != families::member(f, m).property by {
                assert(p[i].property != m.property);
            }
        }
        if others_renamed {
            assert forall|i: int| 0 <= i < p.len() implies (#[trigger] p[i]).property
                != m.property by {
                assert(q[i].property != families::member(f, m).property);
            }
        }
    }
    if m.bodies.contains_key(k) {
        lemma_subtraction(f, m.bodies[k]);
        if let Some((a, b)) = comparison::subtraction(m.bodies[k]) {
            lemma_priors(f, p);
            let mirrors = comparison::priors(p);
            lemma_reads_through(f, a, mirrors, v);
            lemma_reads_through(f, b, mirrors, v);
            lemma_is_register(f, a, mirrors);
            lemma_is_register(f, b, mirrors);
        }
    }
}

proof fn lemma_compared_from(
    f: Renaming,
    members: Seq<MemberModel>,
    k: i64,
    p: Seq<PointerModel>,
    v: Seq<AssignmentModel>,
    i: nat,
)
    requires
        super::is_renaming(f),
    ensures
        comparison::compared_from(
            families::members(f, members),
            k,
            pointers(f, p),
            super::assignments(f, v),
            i,
        ) == parts::pair(f, comparison::compared_from(members, k, p, v, i)),
    decreases members.len() - i,
{
    if i < members.len() {
        lemma_compared_by(f, members[i as int], k, p, v);
        lemma_compared_from(f, members, k, p, v, i + 1);
    }
}

proof fn lemma_walker(
    f: Renaming,
    e: ExprModel,
    p: Seq<PointerModel>,
    v: Seq<AssignmentModel>,
    i: nat,
)
    requires
        super::is_renaming(f),
    ensures
        comparison::walker(super::expr(f, e), pointers(f, p), super::assignments(f, v), i)
            == comparison::walker(e, p, v, i),
        comparison::walker(e, p, v, i) matches Some(at) ==> 0 <= at < p.len(),
    decreases p.len() - i,
{
    if i < p.len() {
        let one = seq![p[i as int].prior];
        assert(super::names(f, one) =~= seq![pointers(f, p)[i as int].prior]);
        lemma_reads_through(f, e, one, v);
        lemma_walker(f, e, p, v, i + 1);
    }
}

proof fn lemma_comparison_source(
    f: Renaming,
    e: ExprModel,
    p: Seq<PointerModel>,
    at: int,
    v: Seq<AssignmentModel>,
)
    requires
        super::is_renaming(f),
        0 <= at < p.len(),
    ensures
        comparison::comparison_source(
            super::expr(f, e),
            pointers(f, p),
            at,
            super::assignments(f, v),
        ) == match comparison::comparison_source(e, p, at, v) {
            Some(m) => Some(source(f, m)),
            None => None,
        },
{
    if p.len() >= 2 {
        let other: int = if at == 0 {
            1
        } else {
            0
        };
        lemma_traced(f, e, p[other].prior, v, v.len());
    } else {
        lemma_accumulator(f, e);
    }
}

pub(super) proof fn lemma_comparison(
    f: Renaming,
    members: Seq<MemberModel>,
    k: i64,
    p: Seq<PointerModel>,
    predicate: TestModel,
    v: Seq<AssignmentModel>,
)
    requires
        super::is_renaming(f),
        p.len() > 0,
    ensures
        comparison::comparison(
            families::members(f, members),
            k,
            pointers(f, p),
            super::test(f, predicate),
            super::assignments(f, v),
        ) == comparison_model(f, comparison::comparison(members, k, p, predicate, v)),
{
    lemma_compared_from(f, members, k, p, v, 0);
    if let Some((a, b)) = comparison::compared_from(members, k, p, v, 0) {
        lemma_walker(f, a, p, v, 0);
        lemma_walker(f, b, p, v, 0);
        let (destination, other) = if comparison::walker(b, p, v, 0) is Some {
            (b, a)
        } else {
            (a, b)
        };
        if let Some(at) = comparison::walker(destination, p, v, 0) {
            lemma_traced(f, destination, p[at].prior, v, v.len());
            lemma_comparison_source(f, other, p, at, v);
        }
        lemma_repeat_selector(f, predicate, members, k, v);
    }
}

} // verus!

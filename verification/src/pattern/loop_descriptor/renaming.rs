//! Recognition does not look into names.
//!
//! Names matter only as far as two of them are the same. So loops are recognised under
//! any other names too.

use super::walk;
use crate::types::{AssignmentModel, BranchModel, ExprModel, TestModel};
use vstd::prelude::*;

pub mod charges;
pub mod comparisons;
pub mod families;
pub mod laws;
pub mod parts;

verus! {

/// A renaming: what every name becomes.
pub type Renaming = spec_fn(Seq<char>) -> Seq<char>;

/// Different names stay different, and no name, which stands where none was found,
/// stays no name.
pub open spec fn is_renaming(f: Renaming) -> bool {
    &&& forall|x: Seq<char>, y: Seq<char>| #[trigger] f(x) == #[trigger] f(y) ==> x == y
    &&& f(Seq::<char>::empty()) == Seq::<char>::empty()
}

/// A renamed expression.
pub open spec fn expr(f: Renaming, e: ExprModel) -> ExprModel
    decreases e,
{
    match e {
        ExprModel::Number(bits) => ExprModel::Number(bits),
        ExprModel::Text(s) => ExprModel::Text(s),
        ExprModel::Var(name, fallback) => ExprModel::Var(
            f(name),
            match fallback {
                Some(x) => Some(Box::new(expr(f, *x))),
                None => None,
            },
        ),
        ExprModel::Calc(kind, parts) => ExprModel::Calc(kind, exprs(f, parts)),
        ExprModel::Cond(list, fallback) => ExprModel::Cond(
            branches(f, list),
            Box::new(expr(f, *fallback)),
        ),
        ExprModel::Call(name, args) => ExprModel::Call(f(name), exprs(f, args)),
        ExprModel::Concat(parts) => ExprModel::Concat(exprs(f, parts)),
    }
}

/// Renamed expressions.
pub open spec fn exprs(f: Renaming, v: Seq<ExprModel>) -> Seq<ExprModel>
    decreases v,
{
    Seq::new(
        v.len(),
        |i: int|
            if 0 <= i < v.len() {
                expr(f, v[i])
            } else {
                arbitrary()
            },
    )
}

/// A renamed branch.
pub open spec fn branch(f: Renaming, b: BranchModel) -> BranchModel
    decreases b,
{
    BranchModel { condition: test(f, b.condition), body: expr(f, b.body) }
}

/// Renamed branches.
pub open spec fn branches(f: Renaming, v: Seq<BranchModel>) -> Seq<BranchModel>
    decreases v,
{
    Seq::new(
        v.len(),
        |i: int|
            if 0 <= i < v.len() {
                branch(f, v[i])
            } else {
                arbitrary()
            },
    )
}

/// A renamed test.
pub open spec fn test(f: Renaming, t: TestModel) -> TestModel
    decreases t,
{
    match t {
        TestModel::Single(property, value) => TestModel::Single(
            f(property),
            Box::new(expr(f, *value)),
        ),
        TestModel::And(parts) => TestModel::And(tests(f, parts)),
        TestModel::Or(parts) => TestModel::Or(tests(f, parts)),
    }
}

/// Renamed tests.
pub open spec fn tests(f: Renaming, v: Seq<TestModel>) -> Seq<TestModel>
    decreases v,
{
    Seq::new(
        v.len(),
        |i: int|
            if 0 <= i < v.len() {
                test(f, v[i])
            } else {
                arbitrary()
            },
    )
}

/// Renamed names.
pub open spec fn names(f: Renaming, v: Seq<Seq<char>>) -> Seq<Seq<char>> {
    Seq::new(v.len(), |i: int| f(v[i]))
}

/// A renamed name, where there is one.
pub open spec fn name(f: Renaming, x: Option<Seq<char>>) -> Option<Seq<char>> {
    match x {
        Some(n) => Some(f(n)),
        None => None,
    }
}

/// Renamed assignments.
pub open spec fn assignments(f: Renaming, v: Seq<AssignmentModel>) -> Seq<AssignmentModel> {
    Seq::new(
        v.len(),
        |i: int| AssignmentModel { property: f(v[i].property), value: expr(f, v[i].value) },
    )
}

proof fn lemma_exprs(f: Renaming, v: Seq<ExprModel>)
    ensures
        exprs(f, v).len() == v.len(),
        forall|i: int| 0 <= i < v.len() ==> (#[trigger] exprs(f, v)[i]) == expr(f, v[i]),
{
}

proof fn lemma_branches(f: Renaming, v: Seq<BranchModel>)
    ensures
        branches(f, v).len() == v.len(),
        forall|i: int| 0 <= i < v.len() ==> (#[trigger] branches(f, v)[i]) == branch(f, v[i]),
{
}

pub(crate) proof fn lemma_tests(f: Renaming, v: Seq<TestModel>)
    ensures
        tests(f, v).len() == v.len(),
        forall|i: int| 0 <= i < v.len() ==> (#[trigger] tests(f, v)[i]) == test(f, v[i]),
{
}

// ---------------------------------------------------------------------------
// Names in expressions
// ---------------------------------------------------------------------------

proof fn lemma_names_in(f: Renaming, e: ExprModel, tested: bool)
    ensures
        walk::names_in(expr(f, e), tested) == names(f, walk::names_in(e, tested)),
    decreases e,
{
    match e {
        ExprModel::Number(_) => {
            assert(walk::names_in(expr(f, e), tested) =~= names(f, walk::names_in(e, tested)));
        },
        ExprModel::Text(_) => {
            assert(walk::names_in(expr(f, e), tested) =~= names(f, walk::names_in(e, tested)));
        },
        ExprModel::Var(_, fallback) => {
            if let Some(x) = fallback {
                lemma_names_in(f, *x, tested);
            }
            assert(walk::names_in(expr(f, e), tested) =~= names(f, walk::names_in(e, tested)));
        },
        ExprModel::Calc(_, parts) => {
            lemma_names_in_list(f, parts, tested);
        },
        ExprModel::Cond(list, fallback) => {
            lemma_names_in_branches(f, list, tested);
            lemma_names_in(f, *fallback, tested);
            assert(walk::names_in(expr(f, e), tested) =~= names(f, walk::names_in(e, tested)));
        },
        ExprModel::Call(_, args) => {
            lemma_names_in_list(f, args, tested);
        },
        ExprModel::Concat(parts) => {
            lemma_names_in_list(f, parts, tested);
        },
    }
}

proof fn lemma_names_in_list(f: Renaming, v: Seq<ExprModel>, tested: bool)
    ensures
        walk::names_in_list(exprs(f, v), tested) == names(f, walk::names_in_list(v, tested)),
    decreases v,
{
    if v.len() > 0 {
        let rest = v.subrange(0, v.len() - 1);
        assert(decreases_to!(v => rest));
        assert(decreases_to!(v => v[v.len() - 1]));
        lemma_names_in_list(f, rest, tested);
        lemma_names_in(f, v[v.len() - 1], tested);
        assert(exprs(f, v).subrange(0, v.len() - 1) =~= exprs(f, rest));
    }
    assert(walk::names_in_list(exprs(f, v), tested) =~= names(f, walk::names_in_list(v, tested)));
}

proof fn lemma_names_in_branches(f: Renaming, v: Seq<BranchModel>, tested: bool)
    ensures
        walk::names_in_branches(branches(f, v), tested) == names(
            f,
            walk::names_in_branches(v, tested),
        ),
    decreases v,
{
    if v.len() > 0 {
        let rest = v.subrange(0, v.len() - 1);
        let last = v[v.len() - 1];
        assert(decreases_to!(v => rest));
        assert(decreases_to!(v => last));
        assert(decreases_to!(last => last.condition));
        assert(decreases_to!(last => last.body));
        lemma_names_in_branches(f, rest, tested);
        lemma_names_in_test(f, last.condition, tested);
        lemma_names_in(f, last.body, tested);
        assert(branches(f, v).subrange(0, v.len() - 1) =~= branches(f, rest));
    }
    assert(walk::names_in_branches(branches(f, v), tested) =~= names(
        f,
        walk::names_in_branches(v, tested),
    ));
}

proof fn lemma_names_in_test(f: Renaming, t: TestModel, tested: bool)
    ensures
        walk::names_in_test(test(f, t), tested) == names(f, walk::names_in_test(t, tested)),
    decreases t,
{
    match t {
        TestModel::Single(_, value) => {
            lemma_names_in(f, *value, tested);
            assert(walk::names_in_test(test(f, t), tested) =~= names(
                f,
                walk::names_in_test(t, tested),
            ));
        },
        TestModel::And(parts) => {
            lemma_names_in_tests(f, parts, tested);
        },
        TestModel::Or(parts) => {
            lemma_names_in_tests(f, parts, tested);
        },
    }
}

proof fn lemma_names_in_tests(f: Renaming, v: Seq<TestModel>, tested: bool)
    ensures
        walk::names_in_tests(tests(f, v), tested) == names(f, walk::names_in_tests(v, tested)),
    decreases v,
{
    if v.len() > 0 {
        let rest = v.subrange(0, v.len() - 1);
        assert(decreases_to!(v => rest));
        assert(decreases_to!(v => v[v.len() - 1]));
        lemma_names_in_tests(f, rest, tested);
        lemma_names_in_test(f, v[v.len() - 1], tested);
        assert(tests(f, v).subrange(0, v.len() - 1) =~= tests(f, rest));
    }
    assert(walk::names_in_tests(tests(f, v), tested) =~= names(
        f,
        walk::names_in_tests(v, tested),
    ));
}

/// A renamed list holds a renamed name exactly if the list holds the name.
proof fn lemma_contains(f: Renaming, v: Seq<Seq<char>>, x: Seq<char>)
    requires
        is_renaming(f),
    ensures
        names(f, v).contains(f(x)) == v.contains(x),
{
    if v.contains(x) {
        let i = choose|i: int| 0 <= i < v.len() && v[i] == x;
        assert(names(f, v)[i] == f(x));
    }
    if names(f, v).contains(f(x)) {
        let i = choose|i: int| 0 <= i < names(f, v).len() && names(f, v)[i] == f(x);
        assert(v[i] == x);
    }
}

proof fn lemma_any_of(f: Renaming, found: Seq<Seq<char>>, wanted: Seq<Seq<char>>)
    requires
        is_renaming(f),
    ensures
        walk::any_of(names(f, found), names(f, wanted)) == walk::any_of(found, wanted),
{
    if walk::any_of(found, wanted) {
        let i = choose|i: int| 0 <= i < found.len() && wanted.contains(#[trigger] found[i]);
        lemma_contains(f, wanted, found[i]);
        assert(names(f, wanted).contains(names(f, found)[i]));
    }
    if walk::any_of(names(f, found), names(f, wanted)) {
        let i = choose|i: int|
            0 <= i < names(f, found).len() && names(f, wanted).contains(
                #[trigger] names(f, found)[i],
            );
        lemma_contains(f, wanted, found[i]);
        assert(wanted.contains(found[i]));
    }
}

proof fn lemma_first_of(f: Renaming, found: Seq<Seq<char>>, wanted: Seq<Seq<char>>)
    requires
        is_renaming(f),
    ensures
        walk::first_of(names(f, found), names(f, wanted)) == name(
            f,
            walk::first_of(found, wanted),
        ),
    decreases found.len(),
{
    if found.len() > 0 {
        let rest = found.subrange(1, found.len() as int);
        lemma_contains(f, wanted, found[0]);
        lemma_first_of(f, rest, wanted);
        assert(names(f, found).subrange(1, found.len() as int) =~= names(f, rest));
    }
}

proof fn lemma_mentions(f: Renaming, e: ExprModel, wanted: Seq<Seq<char>>)
    requires
        is_renaming(f),
    ensures
        walk::mentions(expr(f, e), names(f, wanted)) == walk::mentions(e, wanted),
{
    lemma_names_in(f, e, true);
    lemma_any_of(f, walk::names_in(e, true), wanted);
}

proof fn lemma_tested_in(f: Renaming, t: TestModel)
    ensures
        walk::tested_in(test(f, t)) == names(f, walk::tested_in(t)),
    decreases t,
{
    match t {
        TestModel::Single(_, _) => {
            assert(walk::tested_in(test(f, t)) =~= names(f, walk::tested_in(t)));
        },
        TestModel::And(parts) => {
            lemma_tested_in_list(f, parts);
        },
        TestModel::Or(parts) => {
            lemma_tested_in_list(f, parts);
        },
    }
}

proof fn lemma_tested_in_list(f: Renaming, v: Seq<TestModel>)
    ensures
        walk::tested_in_list(tests(f, v)) == names(f, walk::tested_in_list(v)),
    decreases v,
{
    if v.len() > 0 {
        let rest = v.subrange(0, v.len() - 1);
        assert(decreases_to!(v => rest));
        assert(decreases_to!(v => v[v.len() - 1]));
        lemma_tested_in_list(f, rest);
        lemma_tested_in(f, v[v.len() - 1]);
        assert(tests(f, v).subrange(0, v.len() - 1) =~= tests(f, rest));
    }
    assert(walk::tested_in_list(tests(f, v)) =~= names(f, walk::tested_in_list(v)));
}

proof fn lemma_once_each(f: Renaming, v: Seq<Seq<char>>)
    requires
        is_renaming(f),
    ensures
        walk::once_each(names(f, v)) == names(f, walk::once_each(v)),
    decreases v.len(),
{
    if v.len() > 0 {
        lemma_once_each(f, v.drop_last());
        assert(names(f, v).drop_last() =~= names(f, v.drop_last()));
        lemma_contains(f, walk::once_each(v.drop_last()), v.last());
    }
    assert(walk::once_each(names(f, v)) =~= names(f, walk::once_each(v)));
}

proof fn lemma_children(f: Renaming, e: ExprModel)
    ensures
        walk::children(expr(f, e)) == exprs(f, walk::children(e)),
{
    lemma_exprs(f, walk::children(e));
    match e {
        ExprModel::Cond(list, _) => {
            lemma_branches(f, list);
        },
        _ => {},
    }
    assert(walk::children(expr(f, e)) =~= exprs(f, walk::children(e)));
}

proof fn lemma_has_minus_one(f: Renaming, e: ExprModel)
    ensures
        walk::has_minus_one(expr(f, e)) == walk::has_minus_one(e),
    decreases e,
{
    lemma_children(f, e);
    walk::lemma_children(e);
    let parts = walk::children(e);
    assert forall|i: int| 0 <= i < parts.len() implies walk::has_minus_one(
        #[trigger] walk::children(expr(f, e))[i],
    ) == walk::has_minus_one(parts[i]) by {
        assert(decreases_to!(e => parts[i]));
        lemma_has_minus_one(f, parts[i]);
    }
    if walk::has_minus_one(e) {
        if exists|i: int| 0 <= i < parts.len() && walk::has_minus_one(#[trigger] parts[i]) {
            let i = choose|i: int|
                0 <= i < parts.len() && walk::has_minus_one(#[trigger] parts[i]);
            assert(walk::has_minus_one(walk::children(expr(f, e))[i]));
        }
    }
}

/// Different expressions stay different.
proof fn lemma_expr_injective(f: Renaming, a: ExprModel, b: ExprModel)
    requires
        is_renaming(f),
        expr(f, a) == expr(f, b),
    ensures
        a == b,
    decreases a,
{
    match (a, b) {
        (ExprModel::Var(_, Some(x)), ExprModel::Var(_, Some(y))) => {
            lemma_expr_injective(f, *x, *y);
        },
        (ExprModel::Calc(_, p), ExprModel::Calc(_, q)) => {
            lemma_exprs_injective(f, p, q);
        },
        (ExprModel::Cond(p, x), ExprModel::Cond(q, y)) => {
            lemma_branches_injective(f, p, q);
            lemma_expr_injective(f, *x, *y);
        },
        (ExprModel::Call(_, p), ExprModel::Call(_, q)) => {
            lemma_exprs_injective(f, p, q);
        },
        (ExprModel::Concat(p), ExprModel::Concat(q)) => {
            lemma_exprs_injective(f, p, q);
        },
        _ => {},
    }
}

proof fn lemma_exprs_injective(f: Renaming, a: Seq<ExprModel>, b: Seq<ExprModel>)
    requires
        is_renaming(f),
        exprs(f, a) == exprs(f, b),
    ensures
        a == b,
    decreases a,
{
    lemma_exprs(f, a);
    lemma_exprs(f, b);
    assert forall|i: int| 0 <= i < a.len() implies a[i] == b[i] by {
        assert(exprs(f, a)[i] == exprs(f, b)[i]);
        assert(decreases_to!(a => a[i]));
        lemma_expr_injective(f, a[i], b[i]);
    }
    assert(a =~= b);
}

proof fn lemma_branches_injective(f: Renaming, a: Seq<BranchModel>, b: Seq<BranchModel>)
    requires
        is_renaming(f),
        branches(f, a) == branches(f, b),
    ensures
        a == b,
    decreases a,
{
    lemma_branches(f, a);
    lemma_branches(f, b);
    assert forall|i: int| 0 <= i < a.len() implies a[i] == b[i] by {
        assert(branches(f, a)[i] == branches(f, b)[i]);
        assert(decreases_to!(a => a[i]));
        assert(decreases_to!(a[i] => a[i].condition));
        assert(decreases_to!(a[i] => a[i].body));
        lemma_test_injective(f, a[i].condition, b[i].condition);
        lemma_expr_injective(f, a[i].body, b[i].body);
    }
    assert(a =~= b);
}

proof fn lemma_test_injective(f: Renaming, a: TestModel, b: TestModel)
    requires
        is_renaming(f),
        test(f, a) == test(f, b),
    ensures
        a == b,
    decreases a,
{
    match (a, b) {
        (TestModel::Single(_, x), TestModel::Single(_, y)) => {
            lemma_expr_injective(f, *x, *y);
        },
        (TestModel::And(p), TestModel::And(q)) => {
            lemma_tests_injective(f, p, q);
        },
        (TestModel::Or(p), TestModel::Or(q)) => {
            lemma_tests_injective(f, p, q);
        },
        _ => {},
    }
}

proof fn lemma_tests_injective(f: Renaming, a: Seq<TestModel>, b: Seq<TestModel>)
    requires
        is_renaming(f),
        tests(f, a) == tests(f, b),
    ensures
        a == b,
    decreases a,
{
    lemma_tests(f, a);
    lemma_tests(f, b);
    assert forall|i: int| 0 <= i < a.len() implies a[i] == b[i] by {
        assert(tests(f, a)[i] == tests(f, b)[i]);
        assert(decreases_to!(a => a[i]));
        lemma_test_injective(f, a[i], b[i]);
    }
    assert(a =~= b);
}

} // verus!

//! What an expression mentions, in reading order.

use crate::number;
use crate::types;
use crate::types::{BranchModel, CalcOp, Expr, ExprModel, StyleBranch, StyleTest, TestModel};
use crate::text;
use vstd::prelude::*;

verus! {

// ---------------------------------------------------------------------------
// Names
// ---------------------------------------------------------------------------

/// Names of the variables that an expression reads, in reading order; with
/// `tested` also the properties that its conditions test.
pub open spec fn names_in(e: ExprModel, tested: bool) -> Seq<Seq<char>>
    decreases e,
{
    match e {
        ExprModel::Number(_) => Seq::empty(),
        ExprModel::Text(_) => Seq::empty(),
        ExprModel::Var(name, fallback) => match fallback {
            Some(f) => seq![name] + names_in(*f, tested),
            None => seq![name],
        },
        ExprModel::Calc(_, parts) => names_in_list(parts, tested),
        ExprModel::Cond(branches, fallback) => names_in_branches(branches, tested) + names_in(
            *fallback,
            tested,
        ),
        ExprModel::Call(_, args) => names_in_list(args, tested),
        ExprModel::Concat(parts) => names_in_list(parts, tested),
    }
}

/// Names in a list of expressions.
pub open spec fn names_in_list(v: Seq<ExprModel>, tested: bool) -> Seq<Seq<char>>
    decreases v,
{
    if v.len() == 0 {
        Seq::empty()
    } else {
        names_in_list(v.subrange(0, v.len() - 1), tested) + names_in(v[v.len() - 1], tested)
    }
}

/// Names in a list of branches.
pub open spec fn names_in_branches(v: Seq<BranchModel>, tested: bool) -> Seq<Seq<char>>
    decreases v,
{
    if v.len() == 0 {
        Seq::empty()
    } else {
        names_in_branches(v.subrange(0, v.len() - 1), tested) + (names_in_test(
            v[v.len() - 1].condition,
            tested,
        ) + names_in(v[v.len() - 1].body, tested))
    }
}

/// Names in a condition.
pub open spec fn names_in_test(t: TestModel, tested: bool) -> Seq<Seq<char>>
    decreases t,
{
    match t {
        TestModel::Single(property, value) => if tested {
            seq![property] + names_in(*value, tested)
        } else {
            names_in(*value, tested)
        },
        TestModel::And(parts) => names_in_tests(parts, tested),
        TestModel::Or(parts) => names_in_tests(parts, tested),
    }
}

/// Names in a list of conditions.
pub open spec fn names_in_tests(v: Seq<TestModel>, tested: bool) -> Seq<Seq<char>>
    decreases v,
{
    if v.len() == 0 {
        Seq::empty()
    } else {
        names_in_tests(v.subrange(0, v.len() - 1), tested) + names_in_test(v[v.len() - 1], tested)
    }
}

/// Is one of `wanted` among `found`?
pub open spec fn any_of(found: Seq<Seq<char>>, wanted: Seq<Seq<char>>) -> bool {
    exists|i: int| 0 <= i < found.len() && wanted.contains(#[trigger] found[i])
}

/// The first of `found` that is one of `wanted`.
pub open spec fn first_of(found: Seq<Seq<char>>, wanted: Seq<Seq<char>>) -> Option<Seq<char>>
    decreases found.len(),
{
    if found.len() == 0 {
        None
    } else if wanted.contains(found[0]) {
        Some(found[0])
    } else {
        first_of(found.subrange(1, found.len() as int), wanted)
    }
}

/// Does an expression read or test one of the names?
pub open spec fn mentions(e: ExprModel, wanted: Seq<Seq<char>>) -> bool {
    any_of(names_in(e, true), wanted)
}

fn collect_list(v: &Vec<Expr>, tested: bool, out: &mut Vec<String>)
    ensures
        text::views(final(out)@) == text::views(old(out)@) + names_in_list(types::exprs_view(v@), tested),
    decreases v,
{
    let ghost start = text::views(out@);
    let ghost m = types::exprs_view(v@);
    let mut i: usize = 0;
    assert(m.subrange(0, 0) =~= Seq::<ExprModel>::empty());
    assert(start + names_in_list(m.subrange(0, 0), tested) =~= start);
    while i < v.len()
        invariant
            i <= v@.len(),
            m == types::exprs_view(v@),
            text::views(out@) == start + names_in_list(m.subrange(0, i as int), tested),
        decreases v@.len() - i,
    {
        let ghost before = text::views(out@);
        collect_names(&v[i], tested, out);
        i += 1;
        proof {
            let now = m.subrange(0, i as int);
            assert(now.subrange(0, now.len() - 1) =~= m.subrange(0, i - 1));
            assert(now[now.len() - 1] == v@[i - 1].view());
            assert(text::views(out@) =~= start + names_in_list(now, tested));
        }
    }
    assert(m.subrange(0, i as int) =~= m);
}

fn collect_tests(v: &Vec<StyleTest>, tested: bool, out: &mut Vec<String>)
    ensures
        text::views(final(out)@) == text::views(old(out)@) + names_in_tests(types::tests_view(v@), tested),
    decreases v,
{
    let ghost start = text::views(out@);
    let ghost m = types::tests_view(v@);
    let mut i: usize = 0;
    assert(m.subrange(0, 0) =~= Seq::<TestModel>::empty());
    assert(start + names_in_tests(m.subrange(0, 0), tested) =~= start);
    while i < v.len()
        invariant
            i <= v@.len(),
            m == types::tests_view(v@),
            text::views(out@) == start + names_in_tests(m.subrange(0, i as int), tested),
        decreases v@.len() - i,
    {
        collect_test(&v[i], tested, out);
        i += 1;
        proof {
            let now = m.subrange(0, i as int);
            assert(now.subrange(0, now.len() - 1) =~= m.subrange(0, i - 1));
            assert(now[now.len() - 1] == v@[i - 1].view());
            assert(text::views(out@) =~= start + names_in_tests(now, tested));
        }
    }
    assert(m.subrange(0, i as int) =~= m);
}

fn collect_test(t: &StyleTest, tested: bool, out: &mut Vec<String>)
    ensures
        text::views(final(out)@) == text::views(old(out)@) + names_in_test(t.view(), tested),
    decreases t,
{
    match t {
        StyleTest::Single { property, value } => {
            let ghost start = text::views(out@);
            if tested {
                out.push(property.clone());
                assert(text::views(out@) =~= start + seq![property@]);
            }
            collect_names(value, tested, out);
            assert(text::views(out@) =~= start + names_in_test(t.view(), tested));
        },
        StyleTest::And(parts) => {
            assert(t.view() == TestModel::And(types::tests_view(parts@)));
            collect_tests(parts, tested, out);
        },
        StyleTest::Or(parts) => {
            assert(t.view() == TestModel::Or(types::tests_view(parts@)));
            collect_tests(parts, tested, out);
        },
    }
}

fn collect_branches(v: &Vec<StyleBranch>, tested: bool, out: &mut Vec<String>)
    ensures
        text::views(final(out)@) == text::views(old(out)@) + names_in_branches(
            types::branches_view(v@),
            tested,
        ),
    decreases v,
{
    let ghost start = text::views(out@);
    let ghost m = types::branches_view(v@);
    let mut i: usize = 0;
    assert(m.subrange(0, 0) =~= Seq::<BranchModel>::empty());
    assert(start + names_in_branches(m.subrange(0, 0), tested) =~= start);
    while i < v.len()
        invariant
            i <= v@.len(),
            m == types::branches_view(v@),
            text::views(out@) == start + names_in_branches(m.subrange(0, i as int), tested),
        decreases v@.len() - i,
    {
        let b: &StyleBranch = &v[i];
        assert(decreases_to!(v => v@[i as int]));
        collect_test(&b.condition, tested, out);
        collect_names(b.body(), tested, out);
        i += 1;
        proof {
            let now = m.subrange(0, i as int);
            assert(now.subrange(0, now.len() - 1) =~= m.subrange(0, i - 1));
            assert(now[now.len() - 1] == b.view());
            assert(text::views(out@) =~= start + names_in_branches(now, tested));
        }
    }
    assert(m.subrange(0, i as int) =~= m);
}

fn collect_calc(op: &CalcOp, tested: bool, out: &mut Vec<String>)
    ensures
        text::views(final(out)@) == text::views(old(out)@) + names_in_list(op.parts_view(), tested),
    decreases op,
{
    proof {
        op.lemma_parts();
    }
    let ghost start = text::views(out@);
    let ghost m = op.parts_view();
    let parts = op.operands();
    let mut i: usize = 0;
    assert(m.subrange(0, 0) =~= Seq::<ExprModel>::empty());
    assert(start + names_in_list(m.subrange(0, 0), tested) =~= start);
    while i < parts.len()
        invariant
            i <= parts@.len(),
            parts@.len() == op.parts().len(),
            m == types::exprs_view(op.parts()),
            forall|j: int| 0 <= j < parts@.len() ==> *(#[trigger] parts@[j]) == op.parts()[j],
            forall|j: int|
                0 <= j < op.parts().len() ==> (#[trigger] decreases_to!(*op => op.parts()[j])),
            text::views(out@) == start + names_in_list(m.subrange(0, i as int), tested),
        decreases parts@.len() - i,
    {
        assert(decreases_to!(*op => op.parts()[i as int]));
        collect_names(parts[i], tested, out);
        i += 1;
        proof {
            let now = m.subrange(0, i as int);
            assert(now.subrange(0, now.len() - 1) =~= m.subrange(0, i - 1));
            assert(now[now.len() - 1] == op.parts()[i - 1].view());
            assert(text::views(out@) =~= start + names_in_list(now, tested));
        }
    }
    assert(m.subrange(0, i as int) =~= m);
}

/// Appends the names in an expression to `out`.
pub fn collect_names(e: &Expr, tested: bool, out: &mut Vec<String>)
    ensures
        text::views(final(out)@) == text::views(old(out)@) + names_in(e.view(), tested),
    decreases e,
{
    let ghost start = text::views(out@);
    match e {
        Expr::Literal(_) | Expr::StringLiteral(_) => {
            assert(start + names_in(e.view(), tested) =~= start);
        },
        Expr::Var { name, fallback } => {
            out.push(name.clone());
            assert(text::views(out@) =~= start + seq![name@]);
            if let Some(f) = fallback {
                collect_names(f, tested, out);
                assert(text::views(out@) =~= start + names_in(e.view(), tested));
            }
        },
        Expr::Calc(op) => {
            proof {
                types::lemma_calc(e);
            }
            collect_calc(op, tested, out);
        },
        Expr::StyleCondition { branches, fallback } => {
            assert(e.view() == ExprModel::Cond(
                types::branches_view(branches@),
                Box::new(fallback.view()),
            ));
            collect_branches(branches, tested, out);
            collect_names(fallback, tested, out);
            assert(text::views(out@) =~= start + names_in(e.view(), tested));
        },
        Expr::FunctionCall { name, args } => {
            assert(e.view() == ExprModel::Call(name@, types::exprs_view(args@)));
            collect_list(args, tested, out);
        },
        Expr::Concat(parts) => {
            assert(e.view() == ExprModel::Concat(types::exprs_view(parts@)));
            collect_list(parts, tested, out);
        },
    }
}

/// Is `name` one of `names`?
pub fn lists(names: &Vec<String>, name: &String) -> (r: bool)
    ensures
        r == text::views(names@).contains(name@),
{
    let mut i: usize = 0;
    while i < names.len()
        invariant
            i <= names@.len(),
            forall|j: int| 0 <= j < i ==> (#[trigger] names@[j])@ != name@,
        decreases names@.len() - i,
    {
        if names[i] == *name {
            assert(text::views(names@)[i as int] == name@);
            return true;
        }
        i += 1;
    }
    assert(forall|j: int| 0 <= j < names@.len() ==> (#[trigger] text::views(names@)[j]) == names@[j]@);
    false
}

/// Finds the first of `found` that is one of `wanted`.
fn first_listed(found: &Vec<String>, wanted: &Vec<String>) -> (r: Option<String>)
    ensures
        text::maybe_view(r) == first_of(text::views(found@), text::views(wanted@)),
{
    let ghost all = text::views(found@);
    let mut i: usize = 0;
    assert(all.subrange(0, all.len() as int) =~= all);
    while i < found.len()
        invariant
            i <= found@.len(),
            all == text::views(found@),
            first_of(all, text::views(wanted@)) == first_of(
                all.subrange(i as int, all.len() as int),
                text::views(wanted@),
            ),
        decreases found@.len() - i,
    {
        assert(all.subrange(i as int, all.len() as int)[0] == found@[i as int]@);
        assert(all.subrange(i as int, all.len() as int).subrange(
            1,
            all.len() - i,
        ) =~= all.subrange(i + 1, all.len() as int));
        if lists(wanted, &found[i]) {
            return Some(found[i].clone());
        }
        i += 1;
    }
    None
}

/// Finds the first name of a list of expressions that is one of `wanted`.
pub fn first_mentioned_in_list(v: &Vec<Expr>, wanted: &Vec<String>) -> (r: Option<String>)
    ensures
        text::maybe_view(r) == first_of(
            names_in_list(types::exprs_view(v@), true),
            text::views(wanted@),
        ),
{
    let mut found: Vec<String> = Vec::new();
    collect_list(v, true, &mut found);
    assert(text::views(found@) =~= names_in_list(types::exprs_view(v@), true));
    first_listed(&found, wanted)
}

/// A name of an expression is one of `wanted` exactly if there is a first one.
pub proof fn lemma_first_of(found: Seq<Seq<char>>, wanted: Seq<Seq<char>>)
    ensures
        any_of(found, wanted) <==> first_of(found, wanted) is Some,
    decreases found.len(),
{
    if found.len() > 0 {
        let rest = found.subrange(1, found.len() as int);
        lemma_first_of(rest, wanted);
        if wanted.contains(found[0]) {
            assert(any_of(found, wanted));
        } else {
            if any_of(rest, wanted) {
                let i = choose|i: int| 0 <= i < rest.len() && wanted.contains(#[trigger] rest[i]);
                assert(found[i + 1] == rest[i]);
            }
            if any_of(found, wanted) {
                let i = choose|i: int| 0 <= i < found.len() && wanted.contains(#[trigger] found[i]);
                assert(rest[i - 1] == found[i]);
            }
        }
    }
}

/// Tells whether an expression reads or tests one of the names.
pub fn mentions_any(e: &Expr, wanted: &Vec<String>) -> (r: bool)
    ensures
        r == mentions(e.view(), text::views(wanted@)),
{
    let mut found: Vec<String> = Vec::new();
    collect_names(e, true, &mut found);
    assert(text::views(found@) =~= names_in(e.view(), true));
    proof {
        lemma_first_of(text::views(found@), text::views(wanted@));
    }
    first_listed(&found, wanted).is_some()
}

/// Tells whether one of a list of expressions reads or tests one of the names.
pub fn list_mentions_any(v: &Vec<Expr>, wanted: &Vec<String>) -> (r: bool)
    ensures
        r == any_of(names_in_list(types::exprs_view(v@), true), text::views(wanted@)),
{
    proof {
        lemma_first_of(names_in_list(types::exprs_view(v@), true), text::views(wanted@));
    }
    first_mentioned_in_list(v, wanted).is_some()
}

// ---------------------------------------------------------------------------
// Tested properties
// ---------------------------------------------------------------------------

/// The properties that a condition tests, in reading order.
pub open spec fn tested_in(t: TestModel) -> Seq<Seq<char>>
    decreases t,
{
    match t {
        TestModel::Single(property, _) => seq![property],
        TestModel::And(parts) => tested_in_list(parts),
        TestModel::Or(parts) => tested_in_list(parts),
    }
}

/// The same for a list of conditions.
pub open spec fn tested_in_list(v: Seq<TestModel>) -> Seq<Seq<char>>
    decreases v,
{
    if v.len() == 0 {
        Seq::empty()
    } else {
        tested_in_list(v.subrange(0, v.len() - 1)) + tested_in(v[v.len() - 1])
    }
}

/// A list without its repetitions.
pub open spec fn once_each(list: Seq<Seq<char>>) -> Seq<Seq<char>>
    decreases list.len(),
{
    if list.len() == 0 {
        Seq::empty()
    } else {
        let before = once_each(list.drop_last());
        if before.contains(list.last()) {
            before
        } else {
            before.push(list.last())
        }
    }
}

fn collect_tested_in_list(v: &Vec<StyleTest>, out: &mut Vec<String>)
    ensures
        text::views(final(out)@) == text::views(old(out)@) + tested_in_list(types::tests_view(v@)),
    decreases v,
{
    let ghost start = text::views(out@);
    let ghost m = types::tests_view(v@);
    let mut i: usize = 0;
    assert(m.subrange(0, 0) =~= Seq::<TestModel>::empty());
    assert(start + tested_in_list(m.subrange(0, 0)) =~= start);
    while i < v.len()
        invariant
            i <= v@.len(),
            m == types::tests_view(v@),
            text::views(out@) == start + tested_in_list(m.subrange(0, i as int)),
        decreases v@.len() - i,
    {
        collect_tested(&v[i], out);
        i += 1;
        proof {
            let now = m.subrange(0, i as int);
            assert(now.subrange(0, now.len() - 1) =~= m.subrange(0, i - 1));
            assert(now[now.len() - 1] == v@[i - 1].view());
            assert(text::views(out@) =~= start + tested_in_list(now));
        }
    }
    assert(m.subrange(0, i as int) =~= m);
}

fn collect_tested(t: &StyleTest, out: &mut Vec<String>)
    ensures
        text::views(final(out)@) == text::views(old(out)@) + tested_in(t.view()),
    decreases t,
{
    let ghost start = text::views(out@);
    match t {
        StyleTest::Single { property, value: _ } => {
            out.push(property.clone());
            assert(text::views(out@) =~= start + seq![property@]);
        },
        StyleTest::And(parts) => {
            assert(t.view() == TestModel::And(types::tests_view(parts@)));
            collect_tested_in_list(parts, out);
        },
        StyleTest::Or(parts) => {
            assert(t.view() == TestModel::Or(types::tests_view(parts@)));
            collect_tested_in_list(parts, out);
        },
    }
}

/// Lists the properties that a condition tests, in order, each once.
pub fn collect_property_names_from_predicate(t: &StyleTest) -> (r: Vec<String>)
    ensures
        text::views(r@) == once_each(tested_in(t.view())),
{
    let mut found: Vec<String> = Vec::new();
    collect_tested(t, &mut found);
    let ghost all = tested_in(t.view());
    assert(text::views(found@) =~= all);
    let mut out: Vec<String> = Vec::new();
    let mut i: usize = 0;
    assert(all.subrange(0, 0) =~= Seq::<Seq<char>>::empty());
    assert(text::views(out@) =~= Seq::<Seq<char>>::empty());
    while i < found.len()
        invariant
            i <= found@.len(),
            all == text::views(found@),
            text::views(out@) == once_each(all.subrange(0, i as int)),
        decreases found@.len() - i,
    {
        assert(all.subrange(0, i + 1).drop_last() =~= all.subrange(0, i as int));
        assert(all.subrange(0, i + 1).last() == found@[i as int]@);
        if !lists(&out, &found[i]) {
            let ghost before = out@;
            out.push(found[i].clone());
            assert(text::views(out@) =~= text::views(before).push(found@[i as int]@));
        }
        i += 1;
    }
    assert(all.subrange(0, i as int) =~= all);
    out
}

// ---------------------------------------------------------------------------
// Parts
// ---------------------------------------------------------------------------

/// The expressions that an expression is made of, conditions aside, in reading
/// order.
pub open spec fn children(e: ExprModel) -> Seq<ExprModel> {
    match e {
        ExprModel::Calc(_, parts) => parts,
        ExprModel::Cond(branches, fallback) => Seq::new(
            branches.len(),
            |i: int| branches[i].body,
        ).push(*fallback),
        ExprModel::Call(_, args) => args,
        ExprModel::Concat(parts) => parts,
        _ => Seq::empty(),
    }
}

/// Every part is smaller than the whole.
pub proof fn lemma_children(e: ExprModel)
    ensures
        forall|i: int|
            0 <= i < children(e).len() ==> (#[trigger] decreases_to!(e => children(e)[i])),
{
    assert forall|i: int| 0 <= i < children(e).len() implies (#[trigger] decreases_to!(
        e => children(e)[i]
    )) by {
        match e {
            ExprModel::Calc(_, parts) => {
                assert(decreases_to!(parts => parts[i]));
            },
            ExprModel::Cond(branches, fallback) => {
                if i < branches.len() {
                    assert(decreases_to!(branches => branches[i]));
                    assert(decreases_to!(branches[i] => branches[i].body));
                }
            },
            ExprModel::Call(_, args) => {
                assert(decreases_to!(args => args[i]));
            },
            ExprModel::Concat(parts) => {
                assert(decreases_to!(parts => parts[i]));
            },
            _ => {},
        }
    }
}

/// The parts of an expression.
pub fn parts_of(e: &Expr) -> (r: Vec<&Expr>)
    ensures
        r@.len() == children(e.view()).len(),
        forall|i: int|
            0 <= i < r@.len() ==> (#[trigger] r@[i]).view() == children(e.view())[i]
                && decreases_to!(*e => *r@[i]),
{
    let mut out: Vec<&Expr> = Vec::new();
    match e {
        Expr::Calc(op) => {
            proof {
                types::lemma_calc(e);
                op.lemma_parts();
                assert(decreases_to!(*e => *op));
            }
            out = op.operands();
            assert forall|i: int| 0 <= i < out@.len() implies (#[trigger] out@[i]).view()
                == children(e.view())[i] && decreases_to!(*e => *out@[i]) by {
                assert(decreases_to!(*op => op.parts()[i]));
            }
        },
        Expr::StyleCondition { branches, fallback } => {
            assert(e.view() == ExprModel::Cond(
                types::branches_view(branches@),
                Box::new(fallback.view()),
            ));
            let mut i: usize = 0;
            while i < branches.len()
                invariant
                    i <= branches@.len(),
                    out@.len() == i,
                    *e == (Expr::StyleCondition { branches: *branches, fallback: *fallback }),
                    e.view() == ExprModel::Cond(
                        types::branches_view(branches@),
                        Box::new(fallback.view()),
                    ),
                    forall|j: int|
                        0 <= j < i ==> (#[trigger] out@[j]).view() == children(e.view())[j]
                            && decreases_to!(*e => *out@[j]),
                decreases branches@.len() - i,
            {
                let b: &StyleBranch = &branches[i];
                assert(types::branches_view(branches@)[i as int] == b.view());
                assert(decreases_to!(branches@ => branches@[i as int]));
                out.push(b.body());
                i += 1;
            }
            out.push(&**fallback);
        },
        Expr::FunctionCall { name, args } => {
            assert(e.view() == ExprModel::Call(name@, types::exprs_view(args@)));
            let mut i: usize = 0;
            while i < args.len()
                invariant
                    i <= args@.len(),
                    out@.len() == i,
                    *e == (Expr::FunctionCall { name: *name, args: *args }),
                    e.view() == ExprModel::Call(name@, types::exprs_view(args@)),
                    forall|j: int|
                        0 <= j < i ==> (#[trigger] out@[j]).view() == children(e.view())[j]
                            && decreases_to!(*e => *out@[j]),
                decreases args@.len() - i,
            {
                assert(types::exprs_view(args@)[i as int] == args@[i as int].view());
                assert(decreases_to!(args@ => args@[i as int]));
                out.push(&args[i]);
                i += 1;
            }
        },
        Expr::Concat(parts) => {
            assert(e.view() == ExprModel::Concat(types::exprs_view(parts@)));
            let mut i: usize = 0;
            while i < parts.len()
                invariant
                    i <= parts@.len(),
                    out@.len() == i,
                    *e == Expr::Concat(*parts),
                    e.view() == ExprModel::Concat(types::exprs_view(parts@)),
                    forall|j: int|
                        0 <= j < i ==> (#[trigger] out@[j]).view() == children(e.view())[j]
                            && decreases_to!(*e => *out@[j]),
                decreases parts@.len() - i,
            {
                assert(types::exprs_view(parts@)[i as int] == parts@[i as int].view());
                assert(decreases_to!(parts@ => parts@[i as int]));
                out.push(&parts[i]);
                i += 1;
            }
        },
        _ => {},
    }
    out
}

/// Does the literal -1 stand in an expression, conditions and variable
/// fallbacks aside?
pub open spec fn has_minus_one(e: ExprModel) -> bool
    decreases e,
{
    proof {
        lemma_children(e);
    }
    ||| (e matches ExprModel::Number(bits) && number::whole_value(bits) == Some(-1int))
    ||| exists|i: int| 0 <= i < children(e).len() && has_minus_one(#[trigger] children(e)[i])
}

/// Tells whether the literal -1 stands in an expression.
pub fn contains_minus_one(e: &Expr) -> (r: bool)
    ensures
        r == has_minus_one(e.view()),
    decreases e,
{
    if let Expr::Literal(v) = e {
        assert(children(e.view()) =~= Seq::empty());
        return v.equals_int(-1);
    }
    let parts = parts_of(e);
    let mut i: usize = 0;
    while i < parts.len()
        invariant
            i <= parts@.len(),
            parts@.len() == children(e.view()).len(),
            !(e is Literal),
            forall|j: int|
                0 <= j < parts@.len() ==> (#[trigger] parts@[j]).view() == children(e.view())[j]
                    && decreases_to!(*e => *parts@[j]),
            forall|j: int| 0 <= j < i ==> !has_minus_one(#[trigger] children(e.view())[j]),
        decreases parts@.len() - i,
    {
        if contains_minus_one(parts[i]) {
            assert(has_minus_one(children(e.view())[i as int]));
            return true;
        }
        i += 1;
    }
    false
}

} // verus!

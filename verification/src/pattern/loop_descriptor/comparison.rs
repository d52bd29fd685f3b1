//! The comparison that a read-only loop performs.

use crate::number;
use crate::pattern::loop_descriptor as loops;
use crate::pattern::loop_descriptor::family;
use crate::pattern::loop_descriptor::family::{DispatchFamily, MemberModel};
use crate::pattern::loop_descriptor::index;
use crate::pattern::loop_descriptor::index::AssignmentIndex;
use crate::pattern::loop_descriptor::shapes;
use crate::pattern::loop_descriptor::walk;
use crate::pattern::loop_descriptor::{
    ComparisonModel, ComparisonShape, ComparisonSource, PointerEntry, PointerModel, SourceModel,
};
use crate::types;
use crate::types::{AssignmentModel, CalcKind, CalcOp, Expr, ExprModel, StyleTest, TestModel};
use crate::text;
use vstd::prelude::*;

verus! {

// ---------------------------------------------------------------------------
// Operands
// ---------------------------------------------------------------------------

/// The operands of `a - b`, of `a + (-b)`, or of a call with two arguments.
pub open spec fn plain_subtraction(e: ExprModel) -> Option<(ExprModel, ExprModel)> {
    match e.binary(CalcKind::Sub) {
        Some(pair) => Some(pair),
        None => match e.binary(CalcKind::Add) {
            Some((a, b)) => match b.negated() {
                Some(x) => Some((a, x)),
                None => None,
            },
            None => shapes::call_of_two(e),
        },
    }
}

/// The operands of a subtraction, looked for in the fallback of a conditional
/// and in both sides of a sum before the sum itself.
pub open spec fn subtraction(e: ExprModel) -> Option<(ExprModel, ExprModel)> {
    let inner = match e {
        ExprModel::Cond(_, fallback) => *fallback,
        _ => e,
    };
    match inner.binary(CalcKind::Add) {
        Some((a, b)) => match plain_subtraction(a) {
            Some(pair) => Some(pair),
            None => match plain_subtraction(b) {
                Some(pair) => Some(pair),
                None => plain_subtraction(inner),
            },
        },
        None => plain_subtraction(inner),
    }
}

/// Does an optional pair of expressions stand for `model`?
pub open spec fn pair_is(
    r: Option<(&Expr, &Expr)>,
    model: Option<(ExprModel, ExprModel)>,
) -> bool {
    match r {
        Some((a, b)) => model == Some((a.view(), b.view())),
        None => model is None,
    }
}

/// Matches `a - b`, `a + (-b)`, or a call with two arguments.
fn match_subtraction_operands_inner(e: &Expr) -> (r: Option<(&Expr, &Expr)>)
    ensures
        pair_is(r, plain_subtraction(e.view())),
{
    match shapes::difference_of(e) {
        Some(pair) => Some(pair),
        None => match shapes::sum_of(e) {
            Some((a, b)) => match shapes::negation_of(b) {
                Some(x) => Some((a, x)),
                None => None,
            },
            None => shapes::match_call_of_two(e),
        },
    }
}

/// Finds the operands of a subtraction.
pub fn match_subtraction_operands(e: &Expr) -> (r: Option<(&Expr, &Expr)>)
    ensures
        pair_is(r, subtraction(e.view())),
{
    let inner: &Expr = match e {
        Expr::StyleCondition { branches, fallback } => {
            assert(e.view() == ExprModel::Cond(
                types::branches_view(branches@),
                Box::new(fallback.view()),
            ));
            fallback
        },
        _ => {
            proof {
                types::lemma_calc(e);
            }
            e
        },
    };
    match shapes::sum_of(inner) {
        Some((a, b)) => match match_subtraction_operands_inner(a) {
            Some(pair) => Some(pair),
            None => match match_subtraction_operands_inner(b) {
                Some(pair) => Some(pair),
                None => match_subtraction_operands_inner(inner),
            },
        },
        None => match_subtraction_operands_inner(inner),
    }
}

/// Is an operand read through one of the pointers: a call on it, a property that
/// is assigned such a call, or arithmetic with such an operand?
pub open spec fn reads_through(
    e: ExprModel,
    mirrors: Seq<Seq<char>>,
    v: Seq<AssignmentModel>,
) -> bool
    decreases e,
{
    match e {
        ExprModel::Var(name, None) => match index::assigned(v, name) {
            Some(ExprModel::Call(_, args)) => walk::any_of(walk::names_in_list(args, true), mirrors),
            _ => false,
        },
        ExprModel::Calc(kind, parts) => kind.is_arithmetic() && parts.len() == 2 && (reads_through(
            parts[0],
            mirrors,
            v,
        ) || reads_through(parts[1], mirrors, v)),
        ExprModel::Call(_, args) => walk::any_of(walk::names_in_list(args, true), mirrors),
        _ => false,
    }
}

/// The operands of an arithmetic operator, the operator aside.
fn arithmetic_operands(e: &Expr) -> (r: Option<(&Expr, &Expr)>)
    ensures
        match r {
            Some((a, b)) => e.view() is Calc && (e.view()->Calc_0).is_arithmetic()
                && e.view()->Calc_1 == seq![a.view(), b.view()] && decreases_to!(*e => *a)
                && decreases_to!(*e => *b),
            None => e.view() is Calc ==> !(e.view()->Calc_0).is_arithmetic(),
        },
{
    proof {
        types::lemma_calc(e);
    }
    match e {
        Expr::Calc(op) => match op {
            CalcOp::Add(a, b) | CalcOp::Sub(a, b) | CalcOp::Mul(a, b) | CalcOp::Div(a, b)
            | CalcOp::Mod(a, b) | CalcOp::Pow(a, b) => Some((&**a, &**b)),
            _ => None,
        },
        _ => None,
    }
}

/// Tells whether an operand is read through one of the pointers.
fn operand_reads_through_pointer(
    e: &Expr,
    mirrors: &Vec<String>,
    index: &AssignmentIndex<'_>,
) -> (r: bool)
    requires
        index.wf(),
    ensures
        r == reads_through(e.view(), text::views(mirrors@), index.view()),
    decreases e,
{
    match e {
        Expr::Var { name, fallback: None } => match index.get(name.as_str()) {
            Some(body) => {
                proof {
                    types::lemma_calc(body);
                }
                match body {
                    Expr::FunctionCall { name: function, args } => {
                        assert(body.view() == ExprModel::Call(
                            function@,
                            types::exprs_view(args@),
                        ));
                        walk::list_mentions_any(args, mirrors)
                    },
                    _ => false,
                }
            },
            None => false,
        },
        Expr::FunctionCall { name: function, args } => {
            assert(e.view() == ExprModel::Call(function@, types::exprs_view(args@)));
            walk::list_mentions_any(args, mirrors)
        },
        _ => {
            proof {
                types::lemma_calc(e);
            }
            match arithmetic_operands(e) {
                Some((a, b)) => operand_reads_through_pointer(a, mirrors, index)
                    || operand_reads_through_pointer(b, mirrors, index),
                None => false,
            }
        },
    }
}

// ---------------------------------------------------------------------------
// Segments
// ---------------------------------------------------------------------------

/// Segment, pointer and whether the segment is multiplied by 16, where an
/// argument adds a segment to `target`.
pub open spec fn segment_in_argument(e: ExprModel, target: Seq<char>) -> Option<
    (Seq<char>, Seq<char>, bool),
> {
    match shapes::segmented(e) {
        Some((s, p)) => if p == target {
            Some((s, p, true))
        } else {
            None
        },
        None => match e.binary(CalcKind::Add) {
            Some((a, b)) => match (a.bare_var(), b.bare_var()) {
                (Some(x), Some(y)) => if x == target {
                    Some((y, x, false))
                } else if y == target {
                    Some((x, y, false))
                } else {
                    None
                },
                _ => None,
            },
            None => None,
        },
    }
}

/// Does an optional triple stand for `model`?
pub open spec fn triple_is(
    r: Option<(&String, &String, bool)>,
    model: Option<(Seq<char>, Seq<char>, bool)>,
) -> bool {
    match r {
        Some((s, p, scaled)) => model == Some((s@, p@, scaled)),
        None => model is None,
    }
}

/// Matches an argument that adds a segment to `target`.
fn match_seg_plus_ptr<'a>(e: &'a Expr, target: &String) -> (r: Option<(&'a String, &'a String, bool)>)
    ensures
        triple_is(r, segment_in_argument(e.view(), target@)),
{
    match shapes::match_segmented_address(e) {
        Some((s, p)) => if *p == *target {
            Some((s, p, true))
        } else {
            None
        },
        None => match shapes::sum_of(e) {
            Some((a, b)) => match (shapes::match_bare_var(a), shapes::match_bare_var(b)) {
                (Some(x), Some(y)) => if *x == *target {
                    Some((y, x, false))
                } else if *y == *target {
                    Some((x, y, false))
                } else {
                    None
                },
                _ => None,
            },
            None => None,
        },
    }
}

/// The segment that is added to `target` where an operand is read: in the
/// arguments of a call, through properties and arithmetic. Properties are
/// followed at most `hops` times: with as many hops as there are assignments, a
/// longer chain runs in a circle and leads nowhere.
pub open spec fn traced(
    e: ExprModel,
    target: Seq<char>,
    v: Seq<AssignmentModel>,
    hops: nat,
) -> Option<(Seq<char>, Seq<char>, bool)>
    decreases hops, e, walk::children(e).len() + 1,
{
    match e {
        ExprModel::Var(name, None) => match index::assigned(v, name) {
            Some(body) => if hops > 0 {
                traced(body, target, v, (hops - 1) as nat)
            } else {
                None
            },
            None => None,
        },
        ExprModel::Call(_, _) => traced_from(e, target, v, hops, 0),
        ExprModel::Calc(kind, _) => if kind.is_arithmetic() {
            traced_from(e, target, v, hops, 0)
        } else {
            None
        },
        _ => None,
    }
}

/// The same in the parts of a call or of arithmetic from `i` on.
pub open spec fn traced_from(
    e: ExprModel,
    target: Seq<char>,
    v: Seq<AssignmentModel>,
    hops: nat,
    i: nat,
) -> Option<(Seq<char>, Seq<char>, bool)>
    decreases hops, e, walk::children(e).len() - i,
{
    proof {
        walk::lemma_children(e);
    }
    if i < walk::children(e).len() {
        proof {
            assert(decreases_to!(e => walk::children(e)[i as int]));
        }
        let part = walk::children(e)[i as int];
        match traced(part, target, v, hops) {
            Some(triple) => Some(triple),
            None => if e is Call && segment_in_argument(part, target) is Some {
                segment_in_argument(part, target)
            } else {
                traced_from(e, target, v, hops, i + 1)
            },
        }
    } else {
        None
    }
}

/// Finds the segment that is added to `target` where an operand is read.
fn trace_segmented_read<'a>(
    e: &'a Expr,
    target: &String,
    index: &AssignmentIndex<'a>,
    hops: usize,
) -> (r: Option<(&'a String, &'a String, bool)>)
    requires
        index.wf(),
    ensures
        triple_is(r, traced(e.view(), target@, index.view(), hops as nat)),
    decreases hops, e,
{
    proof {
        types::lemma_calc(e);
    }
    match e {
        Expr::Var { name, fallback: None } => match index.get(name.as_str()) {
            Some(body) => if hops > 0 {
                trace_segmented_read(body, target, index, hops - 1)
            } else {
                None
            },
            None => None,
        },
        Expr::FunctionCall { name: function, args } => {
            assert(e.view() == ExprModel::Call(function@, types::exprs_view(args@)));
            let parts = walk::parts_of(e);
            let mut i: usize = 0;
            while i < parts.len()
                invariant
                    i <= parts@.len(),
                    index.wf(),
                    e.view() is Call,
                    parts@.len() == walk::children(e.view()).len(),
                    forall|j: int|
                        0 <= j < parts@.len() ==> (#[trigger] parts@[j]).view() == walk::children(
                            e.view(),
                        )[j] && decreases_to!(*e => *parts@[j]),
                    traced(e.view(), target@, index.view(), hops as nat) == traced_from(
                        e.view(),
                        target@,
                        index.view(),
                        hops as nat,
                        i as nat,
                    ),
                decreases parts@.len() - i,
            {
                if let Some(t) = trace_segmented_read(parts[i], target, index, hops) {
                    return Some(t);
                }
                if let Some(t) = match_seg_plus_ptr(parts[i], target) {
                    return Some(t);
                }
                i += 1;
            }
            None
        },
        _ => match arithmetic_operands(e) {
            Some((a, b)) => {
                assert(walk::children(e.view()) == seq![a.view(), b.view()]);
                assert(traced_from(e.view(), target@, index.view(), hops as nat, 2) is None);
                match trace_segmented_read(a, target, index, hops) {
                    Some(t) => Some(t),
                    None => {
                        assert(traced_from(e.view(), target@, index.view(), hops as nat, 0)
                            == traced_from(e.view(), target@, index.view(), hops as nat, 1));
                        trace_segmented_read(b, target, index, hops)
                    },
                }
            },
            None => None,
        },
    }
}

/// The register that an operand is: a variable, or a sum with one.
pub open spec fn accumulator(e: ExprModel) -> Option<SourceModel> {
    match e.bare_var() {
        Some(name) => Some(SourceModel::Accumulator { byte: name, word: name }),
        None => match e.binary(CalcKind::Add) {
            Some((a, b)) => match (a.bare_var(), b.bare_var()) {
                (Some(name), _) => Some(SourceModel::Accumulator { byte: name, word: name }),
                (None, Some(name)) => Some(SourceModel::Accumulator { byte: name, word: name }),
                _ => None,
            },
            None => None,
        },
    }
}

/// Finds the register that an operand is.
fn extract_accumulator(e: &Expr) -> (r: Option<ComparisonSource>)
    ensures
        match r {
            Some(s) => accumulator(e.view()) == Some(s.view()),
            None => accumulator(e.view()) is None,
        },
{
    let found: Option<&String> = match shapes::match_bare_var(e) {
        Some(name) => Some(name),
        None => match shapes::sum_of(e) {
            Some((a, b)) => match shapes::match_bare_var(a) {
                Some(name) => Some(name),
                None => shapes::match_bare_var(b),
            },
            None => None,
        },
    };
    match found {
        Some(name) => Some(
            ComparisonSource::Accumulator {
                byte_property: name.clone(),
                word_property: name.clone(),
            },
        ),
        None => None,
    }
}

// ---------------------------------------------------------------------------
// The property that selects the direction of the repeat
// ---------------------------------------------------------------------------

/// Does an expression read one of the names, itself or through at most
/// `depth - 1` properties?
pub open spec fn reaches(
    e: ExprModel,
    targets: Seq<Seq<char>>,
    v: Seq<AssignmentModel>,
    depth: nat,
) -> bool
    decreases depth,
{
    depth > 0 && (walk::mentions(e, targets) || exists|i: int|
        0 <= i < walk::names_in(e, false).len() && (index::assigned(
            v,
            #[trigger] walk::names_in(e, false)[i],
        ) matches Some(body) && reaches(body, targets, v, (depth - 1) as nat)))
}

/// Tells whether an expression reads one of the names, directly or through
/// properties.
fn expr_reaches_through_intermediates(
    e: &Expr,
    targets: &Vec<String>,
    index: &AssignmentIndex<'_>,
    depth: u32,
) -> (r: bool)
    requires
        index.wf(),
    ensures
        r == reaches(e.view(), text::views(targets@), index.view(), depth as nat),
    decreases depth,
{
    if depth == 0 {
        return false;
    }
    if walk::mentions_any(e, targets) {
        return true;
    }
    let mut names: Vec<String> = Vec::new();
    walk::collect_names(e, false, &mut names);
    let ghost all = walk::names_in(e.view(), false);
    assert(text::views(names@) =~= all);
    let mut i: usize = 0;
    while i < names.len()
        invariant
            i <= names@.len(),
            index.wf(),
            depth > 0,
            all == walk::names_in(e.view(), false),
            text::views(names@) == all,
            !walk::mentions(e.view(), text::views(targets@)),
            forall|j: int|
                0 <= j < i ==> !(index::assigned(index.view(), #[trigger] all[j]) matches Some(
                    body,
                ) && reaches(body, text::views(targets@), index.view(), (depth - 1) as nat)),
        decreases names@.len() - i,
    {
        assert(all[i as int] == names@[i as int]@);
        if let Some(body) = index.get(names[i].as_str()) {
            if expr_reaches_through_intermediates(body, targets, index, depth - 1) {
                return true;
            }
        }
        i += 1;
    }
    assert(!reaches(e.view(), text::views(targets@), index.view(), depth as nat));
    false
}

/// Property and number of the literal tests in a condition, in order.
pub open spec fn literal_tests(t: TestModel) -> Seq<(Seq<char>, i64)>
    decreases t,
{
    match t {
        TestModel::Single(property, value) => match *value {
            ExprModel::Number(bits) => seq![(property, number::as_i64(bits))],
            _ => Seq::empty(),
        },
        TestModel::And(parts) => literal_tests_in(parts),
        TestModel::Or(parts) => literal_tests_in(parts),
    }
}

/// The same for a list of conditions.
pub open spec fn literal_tests_in(v: Seq<TestModel>) -> Seq<(Seq<char>, i64)>
    decreases v,
{
    if v.len() == 0 {
        Seq::empty()
    } else {
        literal_tests_in(v.subrange(0, v.len() - 1)) + literal_tests(v[v.len() - 1])
    }
}

/// The values of a list of tests.
pub open spec fn tests_listed(v: Seq<(String, i64)>) -> Seq<(Seq<char>, i64)> {
    Seq::new(v.len(), |i: int| (v[i].0@, v[i].1))
}

/// Appends the literal tests of a list of conditions.
fn collect_literal_tests_in(v: &Vec<StyleTest>, out: &mut Vec<(String, i64)>)
    ensures
        tests_listed(final(out)@) == tests_listed(old(out)@) + literal_tests_in(
            types::tests_view(v@),
        ),
    decreases v,
{
    let ghost start = tests_listed(out@);
    let ghost m = types::tests_view(v@);
    let mut i: usize = 0;
    assert(m.subrange(0, 0) =~= Seq::<TestModel>::empty());
    assert(start + literal_tests_in(m.subrange(0, 0)) =~= start);
    while i < v.len()
        invariant
            i <= v@.len(),
            m == types::tests_view(v@),
            tests_listed(out@) == start + literal_tests_in(m.subrange(0, i as int)),
        decreases v@.len() - i,
    {
        collect_single_pairs(&v[i], out);
        i += 1;
        proof {
            let now = m.subrange(0, i as int);
            assert(now.subrange(0, now.len() - 1) =~= m.subrange(0, i - 1));
            assert(now[now.len() - 1] == v@[i - 1].view());
            assert(tests_listed(out@) =~= start + literal_tests_in(now));
        }
    }
    assert(m.subrange(0, i as int) =~= m);
}

/// Appends the literal tests of a condition.
fn collect_single_pairs(t: &StyleTest, out: &mut Vec<(String, i64)>)
    ensures
        tests_listed(final(out)@) == tests_listed(old(out)@) + literal_tests(t.view()),
    decreases t,
{
    let ghost start = tests_listed(out@);
    match t {
        StyleTest::Single { property, value } => {
            assert(t.view() == TestModel::Single(property@, Box::new(value.view())));
            if let Expr::Literal(v) = value {
                out.push((property.clone(), v.to_i64()));
            }
            assert(tests_listed(out@) =~= start + literal_tests(t.view()));
        },
        StyleTest::And(parts) => {
            assert(t.view() == TestModel::And(types::tests_view(parts@)));
            collect_literal_tests_in(parts, out);
        },
        StyleTest::Or(parts) => {
            assert(t.view() == TestModel::Or(types::tests_view(parts@)));
            collect_literal_tests_in(parts, out);
        },
    }
}

/// Is a property tested against two different numbers?
pub open spec fn varies(tests: Seq<(Seq<char>, i64)>, slot: Seq<char>) -> bool {
    exists|i: int, j: int|
        0 <= i < tests.len() && 0 <= j < tests.len() && (#[trigger] tests[i]).0 == slot && (
        #[trigger] tests[j]).0 == slot && tests[i].1 != tests[j].1
}

/// The members whose body for `k` is a subtraction.
pub open spec fn compared_outputs(members: Seq<MemberModel>, k: i64) -> Seq<Seq<char>>
    decreases members.len(),
{
    if members.len() == 0 {
        Seq::empty()
    } else {
        let before = compared_outputs(members.drop_last(), k);
        let m = members.last();
        if m.bodies.contains_key(k) && subtraction(m.bodies[k]) is Some {
            before.push(m.property)
        } else {
            before
        }
    }
}

/// Could a property select the direction of the repeat: it is tested against
/// different numbers, and is not computed from the comparison?
pub open spec fn selects_repeat(
    tests: Seq<(Seq<char>, i64)>,
    outputs: Seq<Seq<char>>,
    v: Seq<AssignmentModel>,
    slot: Seq<char>,
) -> bool {
    varies(tests, slot) && !(index::assigned(v, slot) matches Some(body) && reaches(
        body,
        outputs,
        v,
        3,
    ))
}

/// Is `slot` the only property that could select the direction?
pub open spec fn only_selector(
    tests: Seq<(Seq<char>, i64)>,
    outputs: Seq<Seq<char>>,
    v: Seq<AssignmentModel>,
    slot: Seq<char>,
) -> bool {
    selects_repeat(tests, outputs, v, slot) && forall|t: Seq<char>|
        selects_repeat(tests, outputs, v, t) ==> t == slot
}

/// The property that selects the direction of the repeat, if a predicate of
/// several alternatives leaves exactly one candidate.
pub open spec fn repeat_selector(
    predicate: TestModel,
    members: Seq<MemberModel>,
    k: i64,
    v: Seq<AssignmentModel>,
) -> Option<Seq<char>> {
    match predicate {
        TestModel::Or(parts) => {
            let tests = literal_tests_in(parts);
            let outputs = compared_outputs(members, k);
            if parts.len() >= 2 && exists|s: Seq<char>| only_selector(tests, outputs, v, s) {
                Some(choose|s: Seq<char>| only_selector(tests, outputs, v, s))
            } else {
                None
            }
        },
        _ => None,
    }
}

/// Tells whether a property is tested against two different numbers.
fn is_varied(tests: &Vec<(String, i64)>, slot: &String) -> (r: bool)
    ensures
        r == varies(tests_listed(tests@), slot@),
{
    let ghost all = tests_listed(tests@);
    let mut first: Option<i64> = None;
    let mut i: usize = 0;
    while i < tests.len()
        invariant
            i <= tests@.len(),
            all == tests_listed(tests@),
            match first {
                Some(x) => exists|j: int| 0 <= j < i && (#[trigger] all[j]).0 == slot@ && all[j].1 == x,
                None => true,
            },
            forall|j: int|
                0 <= j < i && (#[trigger] all[j]).0 == slot@ ==> first == Some(all[j].1),
        decreases tests@.len() - i,
    {
        assert(all[i as int] == (tests@[i as int].0@, tests@[i as int].1));
        if tests[i].0 == *slot {
            match first {
                Some(x) => {
                    if x != tests[i].1 {
                        assert(varies(all, slot@));
                        return true;
                    }
                },
                None => {
                    first = Some(tests[i].1);
                },
            }
        }
        i += 1;
    }
    false
}

/// Lists the members whose body for `k` is a subtraction.
fn list_outputs(family: &DispatchFamily<'_>, k: i64) -> (r: Vec<String>)
    ensures
        text::views(r@) == compared_outputs(family.view().members, k),
{
    let ghost all = family.view().members;
    let mut out: Vec<String> = Vec::new();
    let mut i: usize = 0;
    assert(all.subrange(0, 0) =~= Seq::<MemberModel>::empty());
    assert(text::views(out@) =~= Seq::<Seq<char>>::empty());
    while i < family.members.len()
        invariant
            i <= family.members@.len(),
            all == family::members_view(family.members@),
            text::views(out@) == compared_outputs(all.subrange(0, i as int), k),
        decreases family.members@.len() - i,
    {
        let m = &family.members[i];
        assert(all.subrange(0, i + 1).drop_last() =~= all.subrange(0, i as int));
        assert(all.subrange(0, i + 1).last() == m.view());
        if let Some(body) = m.body(k) {
            if match_subtraction_operands(body).is_some() {
                let ghost before = out@;
                out.push(m.property.clone());
                assert(text::views(out@) =~= text::views(before).push(m.property@));
            }
        }
        i += 1;
    }
    assert(all.subrange(0, i as int) =~= all);
    out
}

/// Finds the property that selects the direction of the repeat.
pub fn identify_rep_type_slot(
    predicate: &StyleTest,
    family: &DispatchFamily<'_>,
    k: i64,
    index: &AssignmentIndex<'_>,
) -> (r: Option<String>)
    requires
        index.wf(),
    ensures
        text::maybe_view(r) == repeat_selector(
            predicate.view(),
            family.view().members,
            k,
            index.view(),
        ),
{
    match predicate {
        StyleTest::Or(parts) => {
            assert(predicate.view() == TestModel::Or(types::tests_view(parts@)));
            if parts.len() < 2 {
                return None;
            }
            let mut tests: Vec<(String, i64)> = Vec::new();
            collect_literal_tests_in(parts, &mut tests);
            let ghost all = literal_tests_in(types::tests_view(parts@));
            assert(tests_listed(tests@) =~= all);
            let outputs = list_outputs(family, k);
            let ghost outs = text::views(outputs@);
            let ghost v = index.view();
            let mut found: Option<usize> = None;
            let mut i: usize = 0;
            while i < tests.len()
                invariant
                    i <= tests@.len(),
                    index.wf(),
                    v == index.view(),
                    outs == text::views(outputs@),
                    outs == compared_outputs(family.view().members, k),
                    all == literal_tests_in(types::tests_view(parts@)),
                    all == tests_listed(tests@),
                    parts@.len() >= 2,
                    predicate.view() == TestModel::Or(types::tests_view(parts@)),
                    match found {
                        Some(f) => f < i && selects_repeat(all, outs, v, all[f as int].0),
                        None => true,
                    },
                    forall|j: int|
                        0 <= j < i && selects_repeat(all, outs, v, (#[trigger] all[j]).0) ==> found
                            is Some && all[j].0 == all[found->0 as int].0,
                decreases tests@.len() - i,
            {
                let slot: &String = &tests[i].0;
                assert(all[i as int].0 == slot@);
                let mut candidate = is_varied(&tests, slot);
                if candidate {
                    if let Some(body) = index.get(slot.as_str()) {
                        if expr_reaches_through_intermediates(body, &outputs, index, 3) {
                            candidate = false;
                        }
                    }
                }
                assert(candidate == selects_repeat(all, outs, v, slot@));
                if candidate {
                    match found {
                        Some(f) => {
                            assert(all[f as int].0 == tests@[f as int].0@);
                            if tests[f].0 != *slot {
                                assert forall|s: Seq<char>| !only_selector(all, outs, v, s) by {
                                    if only_selector(all, outs, v, s) {
                                        assert(all[f as int].0 == s);
                                        assert(all[i as int].0 == s);
                                    }
                                }
                                return None;
                            }
                        },
                        None => {
                            found = Some(i);
                        },
                    }
                }
                i += 1;
            }
            assert forall|s: Seq<char>| selects_repeat(all, outs, v, s) implies found is Some && s
                == all[found->0 as int].0 by {
                let (a, b) = choose|a: int, b: int|
                    0 <= a < all.len() && 0 <= b < all.len() && (#[trigger] all[a]).0 == s && (
                    #[trigger] all[b]).0 == s && all[a].1 != all[b].1;
                assert(all[a].0 == s);
            }
            match found {
                Some(f) => {
                    assert(all[f as int].0 == tests@[f as int].0@);
                    assert(only_selector(all, outs, v, all[f as int].0));
                    let slot: String = tests[f].0.clone();
                    proof {
                        let chosen = choose|s: Seq<char>| only_selector(all, outs, v, s);
                        assert(only_selector(all, outs, v, chosen));
                        assert(chosen == slot@);
                    }
                    Some(slot)
                },
                None => {
                    assert forall|s: Seq<char>| !only_selector(all, outs, v, s) by {}
                    None
                },
            }
        },
        _ => None,
    }
}

// ---------------------------------------------------------------------------
// The comparison
// ---------------------------------------------------------------------------

/// The prior values of pointers.
pub open spec fn priors(pointers: Seq<PointerModel>) -> Seq<Seq<char>> {
    Seq::new(pointers.len(), |i: int| pointers[i].prior)
}

/// Is an operand a variable other than the pointers?
pub open spec fn is_register(e: ExprModel, mirrors: Seq<Seq<char>>) -> bool {
    e.bare_var() matches Some(name) && !mirrors.contains(name)
}

/// Does a subtraction compare memory with memory, or memory with a register?
pub open spec fn compares_memory(
    a: ExprModel,
    b: ExprModel,
    mirrors: Seq<Seq<char>>,
    v: Seq<AssignmentModel>,
) -> bool {
    let a_reads = reads_through(a, mirrors, v);
    let b_reads = reads_through(b, mirrors, v);
    (a_reads && b_reads) || (a_reads && is_register(b, mirrors)) || (b_reads && is_register(
        a,
        mirrors,
    ))
}

/// The operands that member `m` compares for `k`, if it is not a pointer.
pub open spec fn compared_by(
    m: MemberModel,
    k: i64,
    pointers: Seq<PointerModel>,
    v: Seq<AssignmentModel>,
) -> Option<(ExprModel, ExprModel)> {
    if m.bodies.contains_key(k) && forall|i: int|
        0 <= i < pointers.len() ==> (#[trigger] pointers[i]).property != m.property {
        match subtraction(m.bodies[k]) {
            Some((a, b)) => if compares_memory(a, b, priors(pointers), v) {
                Some((a, b))
            } else {
                None
            },
            None => None,
        }
    } else {
        None
    }
}

/// The operands that the first member from `i` on compares.
pub open spec fn compared_from(
    members: Seq<MemberModel>,
    k: i64,
    pointers: Seq<PointerModel>,
    v: Seq<AssignmentModel>,
    i: nat,
) -> Option<(ExprModel, ExprModel)>
    decreases members.len() - i,
{
    if i < members.len() {
        match compared_by(members[i as int], k, pointers, v) {
            Some(pair) => Some(pair),
            None => compared_from(members, k, pointers, v, i + 1),
        }
    } else {
        None
    }
}

/// The first pointer from `i` on that an operand is read through.
pub open spec fn walker(
    e: ExprModel,
    pointers: Seq<PointerModel>,
    v: Seq<AssignmentModel>,
    i: nat,
) -> Option<int>
    decreases pointers.len() - i,
{
    if i < pointers.len() {
        if reads_through(e, seq![pointers[i as int].prior], v) {
            Some(i as int)
        } else {
            walker(e, pointers, v, i + 1)
        }
    } else {
        None
    }
}

/// The source of a comparison whose destination pointer `at` walks: memory behind
/// the other pointer, or a register where there is no other.
pub open spec fn comparison_source(
    e: ExprModel,
    pointers: Seq<PointerModel>,
    at: int,
    v: Seq<AssignmentModel>,
) -> Option<SourceModel> {
    if pointers.len() >= 2 {
        let other: int = if at == 0 {
            1
        } else {
            0
        };
        match traced(e, pointers[other].prior, v, v.len()) {
            Some((segment, pointer, scaled)) => Some(
                SourceModel::Pointer { segment, scaled, pointer },
            ),
            None => None,
        }
    } else {
        accumulator(e)
    }
}

/// The comparison that the bodies for `k` perform. What is subtracted is the
/// destination, if it is read through a pointer; otherwise the destination is
/// what it is subtracted from.
pub open spec fn comparison(
    members: Seq<MemberModel>,
    k: i64,
    pointers: Seq<PointerModel>,
    predicate: TestModel,
    v: Seq<AssignmentModel>,
) -> Option<ComparisonModel> {
    match compared_from(members, k, pointers, v, 0) {
        Some((a, b)) => {
            let (destination, source) = if walker(b, pointers, v, 0) is Some {
                (b, a)
            } else {
                (a, b)
            };
            match walker(destination, pointers, v, 0) {
                Some(at) => match (
                    traced(destination, pointers[at].prior, v, v.len()),
                    comparison_source(source, pointers, at, v),
                ) {
                    (Some((segment, pointer, scaled)), Some(from)) => Some(
                        ComparisonModel {
                            width: pointers[at].step as u8,
                            segment,
                            scaled,
                            pointer,
                            source: from,
                            repeat: repeat_selector(predicate, members, k, v),
                        },
                    ),
                    _ => None,
                },
                None => None,
            }
        },
        None => None,
    }
}

/// Lists the prior values of pointers.
pub fn list_priors(pointers: &Vec<PointerEntry>) -> (r: Vec<String>)
    ensures
        text::views(r@) == priors(loops::pointers_view(pointers@)),
{
    let mut out: Vec<String> = Vec::new();
    let mut i: usize = 0;
    while i < pointers.len()
        invariant
            i <= pointers@.len(),
            out@.len() == i,
            forall|j: int| 0 <= j < i ==> (#[trigger] out@[j])@ == pointers@[j].self_property@,
        decreases pointers@.len() - i,
    {
        out.push(pointers[i].self_property.clone());
        i += 1;
    }
    assert(text::views(out@) =~= priors(loops::pointers_view(pointers@)));
    out
}

/// Finds the operands that the first member that compares memory compares.
fn find_compared<'a>(
    family: &DispatchFamily<'a>,
    k: i64,
    pointers: &Vec<PointerEntry>,
    index: &AssignmentIndex<'a>,
) -> (r: Option<(&'a Expr, &'a Expr)>)
    requires
        index.wf(),
    ensures
        pair_is(
            r,
            compared_from(
                family.view().members,
                k,
                loops::pointers_view(pointers@),
                index.view(),
                0,
            ),
        ),
{
    let ghost all = family.view().members;
    let ghost ps = loops::pointers_view(pointers@);
    let mirrors = list_priors(pointers);
    let mut i: usize = 0;
    while i < family.members.len()
        invariant
            i <= family.members@.len(),
            index.wf(),
            all == family::members_view(family.members@),
            all == family.view().members,
            ps == loops::pointers_view(pointers@),
            text::views(mirrors@) == priors(ps),
            compared_from(all, k, ps, index.view(), 0) == compared_from(
                all,
                k,
                ps,
                index.view(),
                i as nat,
            ),
        decreases family.members@.len() - i,
    {
        let m = &family.members[i];
        assert(all[i as int] == m.view());
        let mut is_pointer = false;
        let mut p: usize = 0;
        while p < pointers.len()
            invariant
                p <= pointers@.len(),
                ps == loops::pointers_view(pointers@),
                is_pointer == exists|j: int|
                    0 <= j < p && (#[trigger] ps[j]).property == m.property@,
            decreases pointers@.len() - p,
        {
            assert(ps[p as int] == pointers@[p as int].view());
            if pointers[p].property == *m.property {
                is_pointer = true;
                assert(ps[p as int].property == m.property@);
            }
            p += 1;
        }
        if !is_pointer {
            if let Some(body) = m.body(k) {
                if let Some((a, b)) = match_subtraction_operands(body) {
                    let a_reads = operand_reads_through_pointer(a, &mirrors, index);
                    let b_reads = operand_reads_through_pointer(b, &mirrors, index);
                    let a_register = match shapes::match_bare_var(a) {
                        Some(name) => !walk::lists(&mirrors, name),
                        None => false,
                    };
                    let b_register = match shapes::match_bare_var(b) {
                        Some(name) => !walk::lists(&mirrors, name),
                        None => false,
                    };
                    if (a_reads && b_reads) || (a_reads && b_register) || (b_reads && a_register) {
                        return Some((a, b));
                    }
                }
            }
        }
        i += 1;
    }
    None
}

/// Finds the first pointer that an operand is read through.
fn find_walker<'a>(
    e: &Expr,
    pointers: &Vec<PointerEntry>,
    index: &AssignmentIndex<'a>,
) -> (r: Option<usize>)
    requires
        index.wf(),
    ensures
        match r {
            Some(i) => i < pointers@.len() && walker(
                e.view(),
                loops::pointers_view(pointers@),
                index.view(),
                0,
            ) == Some(i as int),
            None => walker(e.view(), loops::pointers_view(pointers@), index.view(), 0) is None,
        },
{
    let ghost ps = loops::pointers_view(pointers@);
    let mut i: usize = 0;
    while i < pointers.len()
        invariant
            i <= pointers@.len(),
            index.wf(),
            ps == loops::pointers_view(pointers@),
            walker(e.view(), ps, index.view(), 0) == walker(e.view(), ps, index.view(), i as nat),
        decreases pointers@.len() - i,
    {
        assert(ps[i as int] == pointers@[i as int].view());
        let mut one: Vec<String> = Vec::new();
        one.push(pointers[i].self_property.clone());
        assert(text::views(one@) =~= seq![ps[i as int].prior]);
        if operand_reads_through_pointer(e, &one, index) {
            return Some(i);
        }
        i += 1;
    }
    None
}

/// Finds the comparison that the bodies for `k` perform.
pub fn extract_comparison_shape<'a>(
    family: &DispatchFamily<'a>,
    k: i64,
    pointers: &Vec<PointerEntry>,
    predicate: &StyleTest,
    index: &AssignmentIndex<'a>,
) -> (r: Option<ComparisonShape>)
    requires
        index.wf(),
    ensures
        match r {
            Some(c) => comparison(
                family.view().members,
                k,
                loops::pointers_view(pointers@),
                predicate.view(),
                index.view(),
            ) == Some(c.view()),
            None => comparison(
                family.view().members,
                k,
                loops::pointers_view(pointers@),
                predicate.view(),
                index.view(),
            ) is None,
        },
{
    let ghost ps = loops::pointers_view(pointers@);
    let (a, b): (&'a Expr, &'a Expr) = match find_compared(family, k, pointers, index) {
        Some((a, b)) => (a, b),
        None => {
            return None;
        },
    };
    let (destination, other, found): (&'a Expr, &'a Expr, Option<usize>) = match find_walker(
        b,
        pointers,
        index,
    ) {
        Some(i) => (b, a, Some(i)),
        None => (a, b, find_walker(a, pointers, index)),
    };
    let at: usize = match found {
        Some(i) => i,
        None => {
            return None;
        },
    };
    assert(ps[at as int] == pointers@[at as int].view());
    let hops: usize = index.len();
    let (segment, pointer, scaled): (&'a String, &'a String, bool) = match trace_segmented_read(
        destination,
        &pointers[at].self_property,
        index,
        hops,
    ) {
        Some((s, p, f)) => (s, p, f),
        None => {
            return None;
        },
    };
    let source: ComparisonSource = if pointers.len() >= 2 {
        let second: usize = if at == 0 {
            1
        } else {
            0
        };
        assert(ps[second as int] == pointers@[second as int].view());
        match trace_segmented_read(other, &pointers[second].self_property, index, hops) {
            Some((s, p, f)) => ComparisonSource::Pointer {
                seg_property: s.clone(),
                seg_times_sixteen: f,
                ptr_property: p.clone(),
            },
            None => {
                return None;
            },
        }
    } else {
        match extract_accumulator(other) {
            Some(s) => s,
            None => {
                return None;
            },
        }
    };
    let repeat: Option<String> = identify_rep_type_slot(predicate, family, k, index);
    Some(
        ComparisonShape {
            width: pointers[at].base_step as u8,
            dst_seg_property: segment.clone(),
            dst_seg_times_sixteen: scaled,
            dst_ptr_property: pointer.clone(),
            source,
            rep_type_property: repeat,
        },
    )
}

} // verus!

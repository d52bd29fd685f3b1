//! The expression shapes that make up a loop.

use crate::number;
use crate::pattern::loop_descriptor::{CounterEntry, CounterModel, PointerEntry, PointerModel};
use crate::types;
use crate::types::{
    BranchModel, CalcKind, CalcOp, Expr, ExprModel, StyleBranch, StyleTest, TestModel,
};
use crate::text;
use vstd::prelude::*;

verus! {

// ---------------------------------------------------------------------------
// Operands
// ---------------------------------------------------------------------------

/// Does an optional pair of operands stand for the operands of `kind` in `e`?
pub open spec fn operands_are(r: Option<(&Expr, &Expr)>, e: &Expr, kind: CalcKind) -> bool {
    match r {
        Some((a, b)) => e.view().binary(kind) == Some((a.view(), b.view())) && decreases_to!(
            *e => *a
        ) && decreases_to!(*e => *b),
        None => e.view().binary(kind) is None,
    }
}

/// The operands of a sum.
pub fn sum_of(e: &Expr) -> (r: Option<(&Expr, &Expr)>)
    ensures
        operands_are(r, e, CalcKind::Add),
{
    proof {
        types::lemma_calc(e);
    }
    match e {
        Expr::Calc(CalcOp::Add(a, b)) => Some((&**a, &**b)),
        _ => None,
    }
}

/// The operands of a difference.
pub fn difference_of(e: &Expr) -> (r: Option<(&Expr, &Expr)>)
    ensures
        operands_are(r, e, CalcKind::Sub),
{
    proof {
        types::lemma_calc(e);
    }
    match e {
        Expr::Calc(CalcOp::Sub(a, b)) => Some((&**a, &**b)),
        _ => None,
    }
}

/// The operands of a product.
pub fn product_of(e: &Expr) -> (r: Option<(&Expr, &Expr)>)
    ensures
        operands_are(r, e, CalcKind::Mul),
{
    proof {
        types::lemma_calc(e);
    }
    match e {
        Expr::Calc(CalcOp::Mul(a, b)) => Some((&**a, &**b)),
        _ => None,
    }
}

/// The operand of a negation.
pub fn negation_of(e: &Expr) -> (r: Option<&Expr>)
    ensures
        match r {
            Some(x) => e.view().negated() == Some(x.view()),
            None => e.view().negated() is None,
        },
{
    proof {
        types::lemma_calc(e);
    }
    match e {
        Expr::Calc(CalcOp::Negate(x)) => Some(&**x),
        _ => None,
    }
}

/// Does an optional name stand for `model`?
pub open spec fn name_is(r: Option<&String>, model: Option<Seq<char>>) -> bool {
    match r {
        Some(s) => model == Some(s@),
        None => model is None,
    }
}

/// Do two optional names stand for `model`?
pub open spec fn names_are(
    r: Option<(&String, &String)>,
    model: Option<(Seq<char>, Seq<char>)>,
) -> bool {
    match r {
        Some((s, t)) => model == Some((s@, t@)),
        None => model is None,
    }
}

/// The name of a variable reference without fallback.
pub fn match_bare_var(e: &Expr) -> (r: Option<&String>)
    ensures
        name_is(r, e.view().bare_var()),
{
    match e {
        Expr::Var { name, fallback: None } => Some(name),
        _ => None,
    }
}

/// The name of a variable reference.
pub fn var_name(e: &Expr) -> (r: Option<&String>)
    ensures
        name_is(r, e.view().var_name()),
{
    match e {
        Expr::Var { name, .. } => Some(name),
        _ => None,
    }
}

/// The integer that a literal denotes.
pub open spec fn whole_literal(e: ExprModel) -> Option<int> {
    match e {
        ExprModel::Number(bits) => number::whole_value(bits),
        _ => None,
    }
}

/// Is `e` the literal `k`?
pub fn match_lit_eq(e: &Expr, k: i64) -> (r: bool)
    requires
        -0x8000_0000_0000_0000 < k < 0x7fff_ffff_ffff_ffff,
    ensures
        r == (whole_literal(e.view()) == Some(k as int)),
{
    match e {
        Expr::Literal(v) => v.equals_int(k),
        _ => false,
    }
}

/// The segment of `segment * 16`, in either order.
pub open spec fn scaled_segment(e: ExprModel) -> Option<Seq<char>> {
    match e.binary(CalcKind::Mul) {
        Some((a, b)) => if a.bare_var() is Some && whole_literal(b) == Some(16int) {
            a.bare_var()
        } else if b.bare_var() is Some && whole_literal(a) == Some(16int) {
            b.bare_var()
        } else {
            None
        },
        None => None,
    }
}

/// Matches `segment * 16`.
pub fn match_var_times_sixteen(e: &Expr) -> (r: Option<&String>)
    ensures
        name_is(r, scaled_segment(e.view())),
{
    match product_of(e) {
        Some((a, b)) => {
            if let Some(name) = match_bare_var(a) {
                if match_lit_eq(b, 16) {
                    return Some(name);
                }
            }
            if let Some(name) = match_bare_var(b) {
                if match_lit_eq(a, 16) {
                    return Some(name);
                }
            }
            None
        },
        None => None,
    }
}

/// Segment and pointer of `segment * 16 + pointer`, in either order.
pub open spec fn segmented(e: ExprModel) -> Option<(Seq<char>, Seq<char>)> {
    match e.binary(CalcKind::Add) {
        Some((a, b)) => match (scaled_segment(a), b.bare_var()) {
            (Some(s), Some(p)) => Some((s, p)),
            _ => match (scaled_segment(b), a.bare_var()) {
                (Some(s), Some(p)) => Some((s, p)),
                _ => None,
            },
        },
        None => None,
    }
}

/// Matches `segment * 16 + pointer`.
pub fn match_segmented_address(e: &Expr) -> (r: Option<(&String, &String)>)
    ensures
        names_are(r, segmented(e.view())),
{
    match sum_of(e) {
        Some((a, b)) => {
            if let Some(s) = match_var_times_sixteen(a) {
                if let Some(p) = match_bare_var(b) {
                    return Some((s, p));
                }
            }
            if let Some(s) = match_var_times_sixteen(b) {
                if let Some(p) = match_bare_var(a) {
                    return Some((s, p));
                }
            }
            None
        },
        None => None,
    }
}

// ---------------------------------------------------------------------------
// Staying or advancing
// ---------------------------------------------------------------------------

/// What a property that stays or advances looks like.
#[verifier::ext_equal]
pub struct IpModel {
    pub prior: Seq<char>,
    pub advance: i32,
    pub predicate: TestModel,
    pub holds_means_stay: bool,
    pub extra: Option<Seq<char>>,
}

/// A matched property that stays or advances.
pub struct IpShape {
    /// The prior value that both branches read.
    pub self_property: String,
    /// What the advancing branch adds.
    pub advance_literal: i32,
    /// The test between the branches.
    pub predicate: StyleTest,
    /// Whether the property stays when the test holds.
    pub predicate_means_stay: bool,
    /// What the staying branch subtracts, where that is a variable.
    pub extra_advance_slot: Option<String>,
}

impl IpShape {
    /// The value of a shape.
    pub open spec fn view(&self) -> IpModel {
        IpModel {
            prior: self.self_property@,
            advance: self.advance_literal,
            predicate: self.predicate.view(),
            holds_means_stay: self.predicate_means_stay,
            extra: text::maybe_view(self.extra_advance_slot),
        }
    }
}

/// The variable and the literal of `variable + literal` with a whole literal.
pub open spec fn var_plus_whole(e: ExprModel) -> Option<(Seq<char>, i32)> {
    match e.binary(CalcKind::Add) {
        Some((ExprModel::Var(name, _), ExprModel::Number(bits))) => if number::is_whole(bits) {
            Some((name, number::as_i32(bits)))
        } else {
            None
        },
        _ => None,
    }
}

/// Matches `variable + literal` with a whole literal.
fn match_calc_add_var_lit(e: &Expr) -> (r: Option<(&String, i32)>)
    ensures
        match r {
            Some((s, k)) => var_plus_whole(e.view()) == Some((s@, k)),
            None => var_plus_whole(e.view()) is None,
        },
{
    match sum_of(e) {
        Some((Expr::Var { name, .. }, Expr::Literal(v))) => if v.is_whole_number() {
            Some((name, v.to_i32()))
        } else {
            None
        },
        _ => None,
    }
}

/// A property that stays at `prior - something` and advances to
/// `prior + literal`.
pub open spec fn ip_oriented(
    stay: ExprModel,
    advance: ExprModel,
    predicate: TestModel,
    holds_means_stay: bool,
) -> Option<IpModel> {
    match (stay.binary(CalcKind::Sub), var_plus_whole(advance)) {
        (Some((ExprModel::Var(name, _), less)), Some((other, k))) => if name == other {
            Some(
                IpModel {
                    prior: name,
                    advance: k,
                    predicate,
                    holds_means_stay,
                    extra: less.var_name(),
                },
            )
        } else {
            None
        },
        _ => None,
    }
}

/// Matches one orientation.
fn match_ip_orientation(
    stay: &Expr,
    advance: &Expr,
    predicate: &StyleTest,
    predicate_means_stay: bool,
) -> (r: Option<IpShape>)
    ensures
        match r {
            Some(s) => ip_oriented(
                stay.view(),
                advance.view(),
                predicate.view(),
                predicate_means_stay,
            ) == Some(s.view()),
            None => ip_oriented(
                stay.view(),
                advance.view(),
                predicate.view(),
                predicate_means_stay,
            ) is None,
        },
{
    match (difference_of(stay), match_calc_add_var_lit(advance)) {
        (Some((Expr::Var { name, .. }, less)), Some((other, k))) => {
            if *name == *other {
                let extra: Option<String> = match var_name(less) {
                    Some(s) => Some(s.clone()),
                    None => None,
                };
                Some(
                    IpShape {
                        self_property: name.clone(),
                        advance_literal: k,
                        predicate: predicate.clone(),
                        predicate_means_stay,
                        extra_advance_slot: extra,
                    },
                )
            } else {
                None
            }
        },
        _ => None,
    }
}

/// The conditions of a list of branches.
pub open spec fn conditions(v: Seq<BranchModel>) -> Seq<TestModel> {
    Seq::new(v.len(), |i: int| v[i].condition)
}

/// Either orientation of two branches.
pub open spec fn ip_either(then: ExprModel, other: ExprModel, predicate: TestModel) -> Option<
    IpModel,
> {
    match ip_oriented(then, other, predicate, true) {
        Some(s) => Some(s),
        None => ip_oriented(other, then, predicate, false),
    }
}

/// A body that stays or advances: one test between two branches, or several
/// tests that all lead to the same branch.
pub open spec fn ip_shape(body: ExprModel) -> Option<IpModel> {
    match body {
        ExprModel::Cond(branches, fallback) => if branches.len() == 0 {
            None
        } else if branches.len() == 1 {
            ip_either(branches[0].body, *fallback, branches[0].condition)
        } else if forall|i: int|
            0 <= i < branches.len() ==> (#[trigger] branches[i]).body == branches[0].body {
            ip_either(branches[0].body, *fallback, TestModel::Or(conditions(branches)))
        } else {
            None
        },
        _ => None,
    }
}

/// Matches a body that stays or advances.
pub fn match_ip_stay_or_advance(body: &Expr) -> (r: Option<IpShape>)
    ensures
        match r {
            Some(s) => ip_shape(body.view()) == Some(s.view()),
            None => ip_shape(body.view()) is None,
        },
{
    match body {
        Expr::StyleCondition { branches, fallback } => {
            let ghost m = types::branches_view(branches@);
            assert(body.view() == ExprModel::Cond(m, Box::new(fallback.view())));
            if branches.len() == 0 {
                return None;
            }
            let first: &StyleBranch = &branches[0];
            assert(m[0] == first.view());
            let then = first.body();
            if branches.len() == 1 {
                return match match_ip_orientation(then, fallback, &first.condition, true) {
                    Some(s) => Some(s),
                    None => match_ip_orientation(fallback, then, &first.condition, false),
                };
            }
            let mut tests: Vec<StyleTest> = Vec::new();
            let mut i: usize = 0;
            while i < branches.len()
                invariant
                    i <= branches@.len(),
                    branches@.len() >= 2,
                    m == types::branches_view(branches@),
                    body.view() == ExprModel::Cond(m, Box::new(fallback.view())),
                    then.view() == m[0].body,
                    tests@.len() == i,
                    forall|j: int| 0 <= j < i ==> (#[trigger] m[j]).body == m[0].body,
                    forall|j: int| 0 <= j < i ==> (#[trigger] tests@[j]).view() == m[j].condition,
                decreases branches@.len() - i,
            {
                let b: &StyleBranch = &branches[i];
                assert(m[i as int] == b.view());
                if !types::same_expr(b.body(), then) {
                    return None;
                }
                tests.push(b.condition.clone());
                i += 1;
            }
            let predicate = StyleTest::Or(tests);
            assert(predicate.view() == TestModel::Or(types::tests_view(tests@)));
            assert(types::tests_view(tests@) =~= conditions(m));
            match match_ip_orientation(then, fallback, &predicate, true) {
                Some(s) => Some(s),
                None => match_ip_orientation(fallback, then, &predicate, false),
            }
        },
        _ => None,
    }
}

// ---------------------------------------------------------------------------
// Counting and stepping
// ---------------------------------------------------------------------------

/// A property that holds still in one branch and counts down to zero in the
/// other: `max(0, prior - step)`.
pub open spec fn counter_oriented(
    still: ExprModel,
    down: ExprModel,
    property: Seq<char>,
) -> Option<CounterModel> {
    match (still, down.binary(CalcKind::Max)) {
        (ExprModel::Var(prior, _), Some((zero, less))) => match less.binary(CalcKind::Sub) {
            Some((ExprModel::Var(name, _), ExprModel::Number(bits))) => if whole_literal(zero)
                == Some(0int) && name == prior && (number::whole_value(bits) matches Some(k) && k
                > 0) {
                Some(CounterModel { property, prior, step: number::as_i32(bits) })
            } else {
                None
            },
            _ => None,
        },
        _ => None,
    }
}

/// The operands of a maximum of two.
fn maximum_of(e: &Expr) -> (r: Option<(&Expr, &Expr)>)
    ensures
        operands_are(r, e, CalcKind::Max),
{
    proof {
        types::lemma_calc(e);
    }
    match e {
        Expr::Calc(CalcOp::Max(args)) => {
            if args.len() == 2 {
                assert(types::exprs_view(args@)[0] == args@[0].view());
                assert(types::exprs_view(args@)[1] == args@[1].view());
                assert(decreases_to!(args@ => args@[0]));
                assert(decreases_to!(args@ => args@[1]));
                Some((&args[0], &args[1]))
            } else {
                None
            }
        },
        _ => None,
    }
}

/// Matches one orientation.
fn match_counter_orientation(still: &Expr, down: &Expr, property: &str) -> (r: Option<
    CounterEntry,
>)
    ensures
        match r {
            Some(c) => counter_oriented(still.view(), down.view(), property@) == Some(c.view()),
            None => counter_oriented(still.view(), down.view(), property@) is None,
        },
{
    match (still, maximum_of(down)) {
        (Expr::Var { name: prior, .. }, Some((zero, less))) => match difference_of(less) {
            Some((Expr::Var { name, .. }, Expr::Literal(v))) => {
                if match_lit_eq(zero, 0) && *name == *prior && v.is_whole_number() && v.to_i64() > 0 {
                    Some(
                        CounterEntry {
                            property: property.to_string(),
                            self_property: prior.clone(),
                            step: v.to_i32(),
                        },
                    )
                } else {
                    None
                }
            },
            _ => None,
        },
        _ => None,
    }
}

/// The two branches of a body with exactly one test.
pub open spec fn two_way(body: ExprModel) -> Option<(ExprModel, ExprModel)> {
    match body {
        ExprModel::Cond(branches, fallback) => if branches.len() == 1 {
            Some((branches[0].body, *fallback))
        } else {
            None
        },
        _ => None,
    }
}

/// Matches a body with exactly one test.
fn match_two_way(body: &Expr) -> (r: Option<(&Expr, &Expr)>)
    ensures
        match r {
            Some((a, b)) => two_way(body.view()) == Some((a.view(), b.view())),
            None => two_way(body.view()) is None,
        },
{
    match body {
        Expr::StyleCondition { branches, fallback } => {
            let ghost m = types::branches_view(branches@);
            assert(body.view() == ExprModel::Cond(m, Box::new(fallback.view())));
            if branches.len() == 1 {
                assert(m[0] == branches@[0].view());
                Some((branches[0].body(), &**fallback))
            } else {
                None
            }
        },
        _ => None,
    }
}

/// A property that counts down, in either orientation.
pub open spec fn counter_shape(body: ExprModel, property: Seq<char>) -> Option<CounterModel> {
    match two_way(body) {
        Some((a, b)) => match counter_oriented(a, b, property) {
            Some(c) => Some(c),
            None => counter_oriented(b, a, property),
        },
        None => None,
    }
}

/// Matches a property that counts down.
pub fn match_counter(body: &Expr, property: &str) -> (r: Option<CounterEntry>)
    ensures
        match r {
            Some(c) => counter_shape(body.view(), property@) == Some(c.view()),
            None => counter_shape(body.view(), property@) is None,
        },
{
    match match_two_way(body) {
        Some((a, b)) => match match_counter_orientation(a, b, property) {
            Some(c) => Some(c),
            None => match_counter_orientation(b, a, property),
        },
        None => None,
    }
}

/// The arguments of a call with two of them, whatever the function.
pub open spec fn call_of_two(e: ExprModel) -> Option<(ExprModel, ExprModel)> {
    match e {
        ExprModel::Call(_, args) => if args.len() == 2 {
            Some((args[0], args[1]))
        } else {
            None
        },
        _ => None,
    }
}

/// Matches a call with two arguments.
pub fn match_call_of_two(e: &Expr) -> (r: Option<(&Expr, &Expr)>)
    ensures
        match r {
            Some((a, b)) => call_of_two(e.view()) == Some((a.view(), b.view())),
            None => call_of_two(e.view()) is None,
        },
{
    match e {
        Expr::FunctionCall { name, args } => {
            assert(e.view() == ExprModel::Call(name@, types::exprs_view(args@)));
            if args.len() == 2 {
                assert(types::exprs_view(args@)[0] == args@[0].view());
                assert(types::exprs_view(args@)[1] == args@[1].view());
                Some((&args[0], &args[1]))
            } else {
                None
            }
        },
        _ => None,
    }
}

/// The step of `prior + k - bit(flag, n) * 2k`: prior value, k, flag and n.
pub open spec fn stepped(e: ExprModel) -> Option<(Seq<char>, i32, Seq<char>, u32)> {
    match e.binary(CalcKind::Sub) {
        Some((sum, product)) => match (sum.binary(CalcKind::Add), product.binary(CalcKind::Mul)) {
            (
                Some((ExprModel::Var(prior, _), ExprModel::Number(k))),
                Some((call, ExprModel::Number(double))),
            ) => match call_of_two(call) {
                Some((ExprModel::Var(flag, _), ExprModel::Number(bit))) => if (
                number::whole_value(k) matches Some(n) && n > 0) && number::is_twice(double, k) && (
                number::whole_value(bit) matches Some(n) && 0 <= n <= 31) {
                    Some((prior, number::as_i32(k), flag, (number::whole_value(bit)->0) as u32))
                } else {
                    None
                },
                _ => None,
            },
            _ => None,
        },
        None => None,
    }
}

/// Matches a step.
fn match_step(e: &Expr) -> (r: Option<(&String, i32, &String, u32)>)
    ensures
        match r {
            Some((p, k, f, n)) => stepped(e.view()) == Some((p@, k, f@, n)),
            None => stepped(e.view()) is None,
        },
{
    match difference_of(e) {
        Some((sum, product)) => match (sum_of(sum), product_of(product)) {
            (Some((Expr::Var { name: prior, .. }, Expr::Literal(k))), Some((call, Expr::Literal(
                double,
            )))) => match match_call_of_two(call) {
                Some((Expr::Var { name: flag, .. }, Expr::Literal(bit))) => {
                    if k.is_whole_number() && k.to_i64() > 0 && double.is_twice_of(*k)
                        && bit.is_whole_number() && bit.to_i64() >= 0 && bit.to_i64() <= 31 {
                        Some((prior, k.to_i32(), flag, bit.to_i64() as u32))
                    } else {
                        None
                    }
                },
                _ => None,
            },
            _ => None,
        },
        None => None,
    }
}

/// A property that holds still in one branch and steps in the other, in a ring
/// of at least two values.
pub open spec fn pointer_oriented(
    still: ExprModel,
    update: ExprModel,
    property: Seq<char>,
) -> Option<PointerModel> {
    match (still, call_of_two(update)) {
        (ExprModel::Var(guard, _), Some((inner, modulus))) => match (
            whole_literal(modulus),
            stepped(inner),
        ) {
            (Some(m), Some((prior, step, flag, bit))) => if m >= 2 && prior == guard {
                Some(PointerModel { property, prior, step, flag, bit })
            } else {
                None
            },
            _ => None,
        },
        _ => None,
    }
}

/// Matches one orientation.
fn match_pointer_with_orientation(still: &Expr, update: &Expr, property: &str) -> (r: Option<
    PointerEntry,
>)
    ensures
        match r {
            Some(p) => pointer_oriented(still.view(), update.view(), property@) == Some(p.view()),
            None => pointer_oriented(still.view(), update.view(), property@) is None,
        },
{
    match (still, match_call_of_two(update)) {
        (Expr::Var { name: guard, .. }, Some((inner, Expr::Literal(modulus)))) => {
            if !modulus.is_whole_number() || modulus.to_i64() < 2 {
                return None;
            }
            match match_step(inner) {
                Some((prior, step, flag, bit)) => {
                    if *prior == *guard {
                        Some(
                            PointerEntry {
                                property: property.to_string(),
                                self_property: prior.clone(),
                                base_step: step,
                                flag_property: flag.clone(),
                                flag_bit: bit,
                            },
                        )
                    } else {
                        None
                    }
                },
                None => None,
            }
        },
        _ => None,
    }
}

/// A property that steps, in either orientation.
pub open spec fn pointer_shape(body: ExprModel, property: Seq<char>) -> Option<PointerModel> {
    match two_way(body) {
        Some((a, b)) => match pointer_oriented(a, b, property) {
            Some(p) => Some(p),
            None => pointer_oriented(b, a, property),
        },
        None => None,
    }
}

/// Matches a property that steps.
pub fn match_pointer(body: &Expr, property: &str) -> (r: Option<PointerEntry>)
    ensures
        match r {
            Some(p) => pointer_shape(body.view(), property@) == Some(p.view()),
            None => pointer_shape(body.view(), property@) is None,
        },
{
    match match_two_way(body) {
        Some((a, b)) => match match_pointer_with_orientation(a, b, property) {
            Some(p) => Some(p),
            None => match_pointer_with_orientation(b, a, property),
        },
        None => None,
    }
}

} // verus!

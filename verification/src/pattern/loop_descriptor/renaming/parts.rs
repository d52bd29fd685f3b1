//! The shapes of loop bodies under other names.

use super::super::shapes;
use super::super::shapes::IpModel;
use super::super::{CounterModel, PointerModel};
use super::Renaming;
use crate::types::{BranchModel, CalcKind, ExprModel, TestModel};
use vstd::prelude::*;

verus! {

/// A renamed shape of an instruction pointer.
pub open spec fn ip(f: Renaming, m: IpModel) -> IpModel {
    IpModel {
        prior: f(m.prior),
        predicate: super::test(f, m.predicate),
        extra: super::name(f, m.extra),
        ..m
    }
}

/// A renamed counter.
pub open spec fn counter(f: Renaming, m: CounterModel) -> CounterModel {
    CounterModel { property: f(m.property), prior: f(m.prior), ..m }
}

/// A renamed pointer.
pub open spec fn pointer(f: Renaming, m: PointerModel) -> PointerModel {
    PointerModel { property: f(m.property), prior: f(m.prior), flag: f(m.flag), ..m }
}

/// Two renamed expressions, where there are two.
pub open spec fn pair(f: Renaming, p: Option<(ExprModel, ExprModel)>) -> Option<
    (ExprModel, ExprModel),
> {
    match p {
        Some((a, b)) => Some((super::expr(f, a), super::expr(f, b))),
        None => None,
    }
}

/// Two renamed names, where there are two.
pub open spec fn name_pair(f: Renaming, p: Option<(Seq<char>, Seq<char>)>) -> Option<
    (Seq<char>, Seq<char>),
> {
    match p {
        Some((a, b)) => Some((f(a), f(b))),
        None => None,
    }
}

pub(super) proof fn lemma_binary(f: Renaming, e: ExprModel, kind: CalcKind)
    ensures
        super::expr(f, e).binary(kind) == pair(f, e.binary(kind)),
{
    if let ExprModel::Calc(_, list) = e {
        super::lemma_exprs(f, list);
    }
}

pub(super) proof fn lemma_negated(f: Renaming, e: ExprModel)
    ensures
        super::expr(f, e).negated() == match e.negated() {
            Some(x) => Some(super::expr(f, x)),
            None => None,
        },
{
    if let ExprModel::Calc(_, list) = e {
        super::lemma_exprs(f, list);
    }
}

pub(super) proof fn lemma_call_of_two(f: Renaming, e: ExprModel)
    ensures
        shapes::call_of_two(super::expr(f, e)) == pair(f, shapes::call_of_two(e)),
{
    if let ExprModel::Call(_, list) = e {
        super::lemma_exprs(f, list);
    }
}

pub(super) proof fn lemma_scaled_segment(f: Renaming, e: ExprModel)
    ensures
        shapes::scaled_segment(super::expr(f, e)) == super::name(f, shapes::scaled_segment(e)),
{
    lemma_binary(f, e, CalcKind::Mul);
}

pub(super) proof fn lemma_segmented(f: Renaming, e: ExprModel)
    ensures
        shapes::segmented(super::expr(f, e)) == name_pair(f, shapes::segmented(e)),
{
    lemma_binary(f, e, CalcKind::Add);
    if let Some((a, b)) = e.binary(CalcKind::Add) {
        lemma_scaled_segment(f, a);
        lemma_scaled_segment(f, b);
    }
}

proof fn lemma_var_plus_whole(f: Renaming, e: ExprModel)
    ensures
        shapes::var_plus_whole(super::expr(f, e)) == match shapes::var_plus_whole(e) {
            Some((x, k)) => Some((f(x), k)),
            None => None,
        },
{
    lemma_binary(f, e, CalcKind::Add);
}

proof fn lemma_ip_oriented(
    f: Renaming,
    stay: ExprModel,
    advance: ExprModel,
    predicate: TestModel,
    holds_means_stay: bool,
)
    requires
        super::is_renaming(f),
    ensures
        shapes::ip_oriented(
            super::expr(f, stay),
            super::expr(f, advance),
            super::test(f, predicate),
            holds_means_stay,
        ) == match shapes::ip_oriented(stay, advance, predicate, holds_means_stay) {
            Some(m) => Some(ip(f, m)),
            None => None,
        },
{
    lemma_binary(f, stay, CalcKind::Sub);
    lemma_var_plus_whole(f, advance);
}

proof fn lemma_ip_either(f: Renaming, a: ExprModel, b: ExprModel, predicate: TestModel)
    requires
        super::is_renaming(f),
    ensures
        shapes::ip_either(super::expr(f, a), super::expr(f, b), super::test(f, predicate))
            == match shapes::ip_either(a, b, predicate) {
            Some(m) => Some(ip(f, m)),
            None => None,
        },
{
    lemma_ip_oriented(f, a, b, predicate, true);
    lemma_ip_oriented(f, b, a, predicate, false);
}

pub(super) proof fn lemma_ip_shape(f: Renaming, body: ExprModel)
    requires
        super::is_renaming(f),
    ensures
        shapes::ip_shape(super::expr(f, body)) == match shapes::ip_shape(body) {
            Some(m) => Some(ip(f, m)),
            None => None,
        },
{
    if let ExprModel::Cond(list, fallback) = body {
        super::lemma_branches(f, list);
        let renamed = super::branches(f, list);
        if list.len() == 1 {
            lemma_ip_either(f, list[0].body, *fallback, list[0].condition);
        } else if list.len() > 1 {
            let all = TestModel::Or(shapes::conditions(list));
            assert(super::test(f, all) == TestModel::Or(shapes::conditions(renamed))) by {
                super::lemma_tests(f, shapes::conditions(list));
                assert(super::tests(f, shapes::conditions(list)) =~= shapes::conditions(renamed));
            }
            lemma_ip_either(f, list[0].body, *fallback, all);
            let same = forall|i: int|
                0 <= i < list.len() ==> (#[trigger] list[i]).body == list[0].body;
            let same_renamed = forall|i: int|
                0 <= i < renamed.len() ==> (#[trigger] renamed[i]).body == renamed[0].body;
            assert(same == same_renamed) by {
                if same {
                    assert forall|i: int| 0 <= i < renamed.len() implies (
                    #[trigger] renamed[i]).body == renamed[0].body by {
                        assert(list[i].body == list[0].body);
                    }
                }
                if same_renamed {
                    assert forall|i: int| 0 <= i < list.len() implies (#[trigger] list[i]).body
                        == list[0].body by {
                        assert(renamed[i].body == renamed[0].body);
                        super::lemma_expr_injective(f, list[i].body, list[0].body);
                    }
                }
            }
        }
    }
}

proof fn lemma_two_way(f: Renaming, body: ExprModel)
    ensures
        shapes::two_way(super::expr(f, body)) == pair(f, shapes::two_way(body)),
{
    if let ExprModel::Cond(list, _) = body {
        super::lemma_branches(f, list);
    }
}

proof fn lemma_counter_oriented(
    f: Renaming,
    still: ExprModel,
    down: ExprModel,
    property: Seq<char>,
)
    requires
        super::is_renaming(f),
    ensures
        shapes::counter_oriented(super::expr(f, still), super::expr(f, down), f(property))
            == match shapes::counter_oriented(still, down, property) {
            Some(m) => Some(counter(f, m)),
            None => None,
        },
{
    lemma_binary(f, down, CalcKind::Max);
    if let Some((zero, less)) = down.binary(CalcKind::Max) {
        lemma_binary(f, less, CalcKind::Sub);
    }
}

pub(super) proof fn lemma_counter_shape(f: Renaming, body: ExprModel, property: Seq<char>)
    requires
        super::is_renaming(f),
    ensures
        shapes::counter_shape(super::expr(f, body), f(property)) == match shapes::counter_shape(
            body,
            property,
        ) {
            Some(m) => Some(counter(f, m)),
            None => None,
        },
{
    lemma_two_way(f, body);
    if let Some((a, b)) = shapes::two_way(body) {
        lemma_counter_oriented(f, a, b, property);
        lemma_counter_oriented(f, b, a, property);
    }
}

proof fn lemma_stepped(f: Renaming, e: ExprModel)
    ensures
        shapes::stepped(super::expr(f, e)) == match shapes::stepped(e) {
            Some((prior, step, flag, bit)) => Some((f(prior), step, f(flag), bit)),
            None => None,
        },
{
    lemma_binary(f, e, CalcKind::Sub);
    if let Some((sum, product)) = e.binary(CalcKind::Sub) {
        lemma_binary(f, sum, CalcKind::Add);
        lemma_binary(f, product, CalcKind::Mul);
        if let Some((call, _)) = product.binary(CalcKind::Mul) {
            lemma_call_of_two(f, call);
        }
    }
}

proof fn lemma_pointer_oriented(
    f: Renaming,
    still: ExprModel,
    update: ExprModel,
    property: Seq<char>,
)
    requires
        super::is_renaming(f),
    ensures
        shapes::pointer_oriented(super::expr(f, still), super::expr(f, update), f(property))
            == match shapes::pointer_oriented(still, update, property) {
            Some(m) => Some(pointer(f, m)),
            None => None,
        },
{
    lemma_call_of_two(f, update);
    if let Some((inner, _)) = shapes::call_of_two(update) {
        lemma_stepped(f, inner);
    }
}

pub(super) proof fn lemma_pointer_shape(f: Renaming, body: ExprModel, property: Seq<char>)
    requires
        super::is_renaming(f),
    ensures
        shapes::pointer_shape(super::expr(f, body), f(property)) == match shapes::pointer_shape(
            body,
            property,
        ) {
            Some(m) => Some(pointer(f, m)),
            None => None,
        },
{
    lemma_two_way(f, body);
    if let Some((a, b)) = shapes::two_way(body) {
        lemma_pointer_oriented(f, a, b, property);
        lemma_pointer_oriented(f, b, a, property);
    }
}

/// A branch's plain test under other names.
pub(super) proof fn lemma_literal_test(f: Renaming, b: BranchModel)
    ensures
        super::branch(f, b).literal_test() == match b.literal_test() {
            Some((property, k)) => Some((f(property), k)),
            None => None,
        },
{
}

} // verus!

//! The cost of an iteration under other names.

use super::super::charge;
use super::super::family::MemberModel;
use super::super::ChargeModel;
use super::families;
use super::parts;
use super::Renaming;
use crate::types::{CalcKind, ExprModel};
use vstd::prelude::*;

verus! {

/// A renamed charge, where there is one.
pub open spec fn charge_model(f: Renaming, m: Option<ChargeModel>) -> Option<ChargeModel> {
    match m {
        Some(c) => Some(ChargeModel { property: f(c.property), per_iter: c.per_iter }),
        None => None,
    }
}

proof fn lemma_var_plus_literal(f: Renaming, e: ExprModel)
    ensures
        charge::var_plus_literal(super::expr(f, e)) == match charge::var_plus_literal(e) {
            Some((x, k)) => Some((f(x), k)),
            None => None,
        },
{
    parts::lemma_binary(f, e, CalcKind::Add);
}

proof fn lemma_users(f: Renaming, m: Map<i64, ExprModel>, x: Seq<char>)
    requires
        super::is_renaming(f),
    ensures
        charge::users(families::bodies(f, m), f(x)) == charge::users(m, x),
{
    let r = families::bodies(f, m);
    assert forall|k: i64| charge::users(r, f(x)).contains(k) == charge::users(m, x).contains(k) by {
        if m.contains_key(k) {
            lemma_var_plus_literal(f, m[k]);
            assert(r[k] == super::expr(f, m[k]));
        }
    }
    assert(charge::users(r, f(x)) =~= charge::users(m, x));
}

/// What renamed bodies add to is a renamed variable.
proof fn lemma_users_are_renamed(f: Renaming, m: Map<i64, ExprModel>, y: Seq<char>) -> (x: Seq<
    char,
>)
    requires
        super::is_renaming(f),
        m.dom().finite(),
        charge::users(families::bodies(f, m), y).len() > 0,
    ensures
        f(x) == y,
{
    let r = families::bodies(f, m);
    assert(r.dom() =~= m.dom());
    let k = lemma_some_user(r, y);
    lemma_var_plus_literal(f, m[k]);
    (charge::var_plus_literal(m[k])->0).0
}

proof fn lemma_some_user(m: Map<i64, ExprModel>, x: Seq<char>) -> (k: i64)
    requires
        m.dom().finite(),
        charge::users(m, x).len() > 0,
    ensures
        m.contains_key(k),
        charge::adds_to(m[k], x),
{
    let users = charge::users(m, x);
    let k = users.choose();
    if users =~= Set::<i64>::empty() {
        assert(users.len() == 0);
    }
    assert(users.contains(k));
    k
}

proof fn lemma_most_used(f: Renaming, m: Map<i64, ExprModel>, x: Seq<char>)
    requires
        super::is_renaming(f),
        m.dom().finite(),
    ensures
        charge::most_used(families::bodies(f, m), f(x)) == charge::most_used(m, x),
{
    let r = families::bodies(f, m);
    lemma_users(f, m, x);
    if charge::users(m, x).len() > 0 {
        if charge::most_used(m, x) {
            assert forall|y: Seq<char>|
                charge::users(r, y).len() > 0 && y != f(x) implies (#[trigger] charge::users(
                r,
                y,
            )).len() < charge::users(r, f(x)).len() || (charge::users(r, y).len()
                == charge::users(r, f(x)).len() && charge::starts_before(r, f(x), y)) by {
                let z = lemma_users_are_renamed(f, m, y);
                lemma_users(f, m, z);
                assert(charge::users(m, z).len() > 0);
                lemma_starts_before(f, m, x, z);
            }
        }
        if charge::most_used(r, f(x)) {
            assert forall|y: Seq<char>|
                charge::users(m, y).len() > 0 && y != x implies (#[trigger] charge::users(
                m,
                y,
            )).len() < charge::users(m, x).len() || (charge::users(m, y).len() == charge::users(
                m,
                x,
            ).len() && charge::starts_before(m, x, y)) by {
                lemma_users(f, m, y);
                assert(charge::users(r, f(y)).len() > 0);
                lemma_starts_before(f, m, x, y);
            }
        }
    }
}

proof fn lemma_starts_before(f: Renaming, m: Map<i64, ExprModel>, x: Seq<char>, y: Seq<char>)
    requires
        super::is_renaming(f),
    ensures
        charge::starts_before(families::bodies(f, m), f(x), f(y)) == charge::starts_before(m, x, y),
{
    lemma_users(f, m, x);
    lemma_users(f, m, y);
}

proof fn lemma_shared_var(f: Renaming, m: Map<i64, ExprModel>)
    requires
        super::is_renaming(f),
        m.dom().finite(),
    ensures
        charge::shared_var(families::bodies(f, m)) == match charge::shared_var(m) {
            Some((x, n)) => Some((f(x), n)),
            None => None,
        },
{
    let r = families::bodies(f, m);
    let before = charge::shared_var(m);
    let after = charge::shared_var(r);
    if let Some((x, _)) = before {
        assert(charge::most_used(m, x));
        lemma_most_used(f, m, x);
        lemma_users(f, m, x);
        assert(charge::most_used(r, f(x)));
        assert(after is Some);
        assert(charge::most_used(r, (after->0).0));
        charge::lemma_most_used_unique(r, f(x), (after->0).0);
    }
    if let Some((y, _)) = after {
        assert(charge::most_used(r, y));
        let x = lemma_users_are_renamed(f, m, y);
        lemma_most_used(f, m, x);
        assert(charge::most_used(m, x));
        assert(before is Some);
    }
}

/// All members have finitely many bodies.
pub open spec fn finite_bodies(v: Seq<MemberModel>) -> bool {
    forall|i: int| 0 <= i < v.len() ==> (#[trigger] v[i]).bodies.dom().finite()
}

proof fn lemma_cost_member(f: Renaming, v: Seq<MemberModel>, n: nat)
    requires
        super::is_renaming(f),
        finite_bodies(v),
        n <= v.len(),
    ensures
        charge::cost_member(families::members(f, v), n) == charge::cost_member(v, n),
        charge::cost_member(v, n) matches Some(b) ==> 0 <= b < n,
    decreases n,
{
    if n > 0 {
        lemma_cost_member(f, v, (n - 1) as nat);
        lemma_shared_var(f, v[n - 1].bodies);
        if let Some(b) = charge::cost_member(v, (n - 1) as nat) {
            lemma_shared_var(f, v[b].bodies);
        }
    }
}

pub(super) proof fn lemma_charge(f: Renaming, v: Seq<MemberModel>, k: i64)
    requires
        super::is_renaming(f),
        finite_bodies(v),
    ensures
        charge::charge(families::members(f, v), k) == charge_model(f, charge::charge(v, k)),
{
    lemma_cost_member(f, v, v.len());
    if let Some(b) = charge::cost_member(v, v.len()) {
        lemma_shared_var(f, v[b].bodies);
        if v[b].bodies.contains_key(k) {
            lemma_var_plus_literal(f, v[b].bodies[k]);
            lemma_cost_is_shared(v, v.len());
        }
    }
}

/// The member that counts the cost has a variable that its bodies share.
proof fn lemma_cost_is_shared(v: Seq<MemberModel>, n: nat)
    requires
        n <= v.len(),
    ensures
        charge::cost_member(v, n) matches Some(b) ==> 0 <= b < n && charge::shared_var(
            v[b].bodies,
        ) is Some,
    decreases n,
{
    if n > 0 {
        lemma_cost_is_shared(v, (n - 1) as nat);
    }
}

} // verus!

//! What dispatches and dispatch tables come to: the value of the chain they were
//! read from.

use crate::number;
use crate::pattern::dispatch_table as table;
use crate::pattern::loop_descriptor::dispatch;
use crate::pattern::loop_descriptor::family;
use crate::pattern::loop_descriptor::family::{DispatchModel, MemberModel};
use crate::pattern::loop_descriptor::meaning;
use crate::pattern::loop_descriptor::meaning::Reading;
use crate::tables;
use crate::types::{AssignmentModel, BranchModel, ExprModel, TestModel};
use vstd::prelude::*;

verus! {

// ---------------------------------------------------------------------------
// Chains
// ---------------------------------------------------------------------------

/// Does a branch test the property against a whole literal of 64 bits?
pub open spec fn tests_whole(b: BranchModel, key: Seq<char>) -> bool {
    b.condition matches TestModel::Single(p, x) && p == key && (*x matches ExprModel::Number(bits)
        && (number::whole_value(bits) matches Some(n) && i64::MIN <= n <= i64::MAX))
}

/// Do all branches test one property against whole literals?
pub open spec fn all_test_whole(branches: Seq<BranchModel>, key: Seq<char>) -> bool {
    forall|i: int| 0 <= i < branches.len() ==> tests_whole(#[trigger] branches[i], key)
}

proof fn lemma_taken(branches: Seq<BranchModel>, key: Seq<char>, k: i64, r: Reading)
    requires
        all_test_whole(branches, key),
        (r.vars)(key) == k,
    ensures
        ({
            let map = tables::first_of(table::dispatch_pairs(branches));
            meaning::taken(branches, r) == if map.contains_key(k) {
                Some(meaning::value(map[k], r))
            } else {
                None
            }
        }),
    decreases branches.len(),
{
    let pairs = table::dispatch_pairs(branches);
    if branches.len() > 0 {
        let n = branches.len() - 1;
        let rest = branches.subrange(0, n);
        assert forall|i: int| 0 <= i < rest.len() implies tests_whole(#[trigger] rest[i], key) by {
            assert(tests_whole(branches[i], key));
        }
        lemma_taken(rest, key, k, r);
        assert(table::dispatch_pairs(rest) =~= pairs.drop_last());
        let last = branches[n];
        assert(tests_whole(last, key));
        assert(pairs.last() == (last.test_key(), last.body));
        assert(meaning::met(last.condition, r) == (last.test_key() == k));
    } else {
        assert(pairs =~= Seq::empty());
    }
}

/// A dispatch table comes to what the chain of branches comes to that it was built
/// from: the entry for the number that the key property holds, or the fallback.
pub proof fn law_table_comes_to_its_chain(
    branches: Seq<BranchModel>,
    fallback: ExprModel,
    k: i64,
    r: Reading,
)
    requires
        table::dispatch_table(branches, fallback) matches Some(t) && all_test_whole(
            branches,
            t.key,
        ) && (r.vars)(t.key) == k,
    ensures
        ({
            let t = table::dispatch_table(branches, fallback)->0;
            meaning::value(ExprModel::Cond(branches, Box::new(fallback)), r) == if t.entries.contains_key(
                k,
            ) {
                meaning::value(t.entries[k], r)
            } else {
                meaning::value(t.fallback, r)
            }
        }),
{
    let t = table::dispatch_table(branches, fallback)->0;
    lemma_taken(branches, t.key, k, r);
}

/// A chain of at least four branches that all test one property against whole
/// literals has a table.
pub proof fn law_chain_has_a_table(
    branches: Seq<BranchModel>,
    fallback: ExprModel,
    key: Seq<char>,
)
    requires
        branches.len() >= 4,
        all_test_whole(branches, key),
    ensures
        table::dispatch_table(branches, fallback) matches Some(t) && t.key == key,
{
    assert(tests_whole(branches[0], key));
    assert forall|i: int| 0 <= i < branches.len() implies (#[trigger] branches[i]).tests_integer()
        && branches[i].test_property() == branches[0].condition->Single_0 by {
        assert(tests_whole(branches[i], key));
    }
}

// ---------------------------------------------------------------------------
// Dispatches
// ---------------------------------------------------------------------------

proof fn lemma_one_key(branches: Seq<BranchModel>, key: Seq<char>)
    requires
        all_test_whole(branches, key),
    ensures
        dispatch::tested_keys(branches).len() == branches.len(),
        forall|i: int|
            0 <= i < branches.len() ==> (#[trigger] dispatch::tested_keys(branches)[i]) == key,
        family::bodies_for(branches, key) == table::dispatch_pairs(branches),
    decreases branches.len(),
{
    if branches.len() > 0 {
        let rest = branches.drop_last();
        assert forall|i: int| 0 <= i < rest.len() implies tests_whole(#[trigger] rest[i], key) by {
            assert(tests_whole(branches[i], key));
        }
        lemma_one_key(rest, key);
        let n = rest.len() as int;
        assert(tests_whole(branches[n], key));
        assert(branches.last() == branches[n]);
        assert(family::bodies_for(branches, key) =~= table::dispatch_pairs(branches));
    } else {
        assert(family::bodies_for(branches, key) =~= table::dispatch_pairs(branches));
    }
}

proof fn lemma_times(list: Seq<Seq<char>>, key: Seq<char>)
    requires
        forall|i: int| 0 <= i < list.len() ==> (#[trigger] list[i]) == key,
    ensures
        dispatch::times(list, key) == list.len(),
    decreases list.len(),
{
    if list.len() > 0 {
        let rest = list.drop_last();
        assert forall|i: int| 0 <= i < rest.len() implies (#[trigger] rest[i]) == key by {
            assert(list[i] == key);
        }
        lemma_times(rest, key);
        assert(list[list.len() - 1] == key);
    }
}

proof fn lemma_top(list: Seq<Seq<char>>, n: nat)
    requires
        0 < n <= list.len(),
    ensures
        0 <= dispatch::top_position(list, n) < n,
    decreases n,
{
    if n > 1 {
        lemma_top(list, (n - 1) as nat);
    }
}

/// The dispatch of a chain that tests one property throughout is on that property,
/// and comes to what the chain comes to: the body for the number that the property
/// holds, where there is one, and otherwise the fallback of the chain.
pub proof fn law_dispatch_comes_to_its_chain(
    branches: Seq<BranchModel>,
    fallback: ExprModel,
    key: Seq<char>,
    k: i64,
    r: Reading,
)
    requires
        branches.len() > 0,
        all_test_whole(branches, key),
        (r.vars)(key) == k,
    ensures
        ({
            let e = ExprModel::Cond(branches, Box::new(fallback));
            &&& family::dispatch_in(e) matches Some(d)
            &&& d.key == key
            &&& meaning::value(e, r) == if d.bodies.contains_key(k) {
                meaning::value(d.bodies[k], r)
            } else {
                meaning::value(fallback, r)
            }
        }),
{
    let e = ExprModel::Cond(branches, Box::new(fallback));
    assert(tests_whole(branches[0], key));
    assert(dispatch::single_key(e)) by {
        assert forall|i: int| 0 <= i < branches.len() implies (
        #[trigger] branches[i]).literal_test() is Some && branches[i].test_property()
            == branches[0].condition->Single_0 by {
            assert(tests_whole(branches[i], key));
        }
    }
    lemma_one_key(branches, key);
    let keys = dispatch::tested_keys(branches);
    lemma_top(keys, keys.len());
    lemma_times(keys, key);
    let top = keys[dispatch::top_position(keys, keys.len())];
    assert(top == key);
    lemma_taken(branches, key, k, r);
}

// ---------------------------------------------------------------------------
// Overrides
// ---------------------------------------------------------------------------

/// Is the dispatch inside an expression reached through fallbacks of conditionals
/// alone?
pub open spec fn behind_fallbacks(e: ExprModel) -> bool
    decreases e,
{
    dispatch::single_key(e) || (e matches ExprModel::Cond(branches, fallback) && branches.len() > 0
        && dispatch::inner_dispatch(*fallback) is Some && behind_fallbacks(*fallback))
}

/// Where none of the overrides is met, an expression whose dispatch stands behind
/// fallbacks comes to what the dispatch comes to.
pub proof fn law_dispatch_decides_without_overrides(e: ExprModel, r: Reading)
    requires
        behind_fallbacks(e),
        forall|i: int|
            0 <= i < dispatch::overrides(e).len() ==> !meaning::met(
                #[trigger] dispatch::overrides(e)[i],
                r,
            ),
    ensures
        dispatch::inner_dispatch(e) is Some,
        meaning::value(e, r) == meaning::value(dispatch::inner_dispatch(e)->0, r),
    decreases e,
{
    if !dispatch::single_key(e) {
        if let ExprModel::Cond(branches, fallback) = e {
            let here = Seq::new(branches.len(), |i: int| branches[i].condition);
            let all = dispatch::overrides(e);
            assert(all == here + dispatch::overrides(*fallback));
            assert forall|i: int| 0 <= i < branches.len() implies !meaning::met(
                (#[trigger] branches[i]).condition,
                r,
            ) by {
                assert(all[i] == branches[i].condition);
            }
            lemma_none_taken(branches, r);
            assert forall|i: int|
                0 <= i < dispatch::overrides(*fallback).len() implies !meaning::met(
                #[trigger] dispatch::overrides(*fallback)[i],
                r,
            ) by {
                assert(all[here.len() + i] == dispatch::overrides(*fallback)[i]);
            }
            law_dispatch_decides_without_overrides(*fallback, r);
        }
    }
}

proof fn lemma_none_taken(branches: Seq<BranchModel>, r: Reading)
    requires
        forall|i: int|
            0 <= i < branches.len() ==> !meaning::met((#[trigger] branches[i]).condition, r),
    ensures
        meaning::taken(branches, r) is None,
    decreases branches.len(),
{
    if branches.len() > 0 {
        let rest = branches.subrange(0, branches.len() - 1);
        assert forall|i: int| 0 <= i < rest.len() implies !meaning::met(
            (#[trigger] rest[i]).condition,
            r,
        ) by {
            assert(!meaning::met(branches[i].condition, r));
        }
        lemma_none_taken(rest, r);
        assert(!meaning::met(branches[branches.len() - 1].condition, r));
    }
}

/// Every condition that is met before the dispatch is reached is an override.
pub proof fn law_conditions_before_are_overrides(e: ExprModel, i: int)
    requires
        behind_fallbacks(e),
        !dispatch::single_key(e),
        e matches ExprModel::Cond(branches, _) && 0 <= i < branches.len(),
    ensures
        dispatch::overrides(e).contains((e->Cond_0)[i].condition),
{
    let branches = e->Cond_0;
    let here = Seq::new(branches.len(), |i: int| branches[i].condition);
    assert(dispatch::overrides(e)[i] == branches[i].condition);
}

// ---------------------------------------------------------------------------
// Families
// ---------------------------------------------------------------------------

/// Does assignment `i` dispatch on the key, and no later assignment of its property?
pub open spec fn last_to_dispatch(v: Seq<AssignmentModel>, i: int, key: Seq<char>) -> bool {
    &&& 0 <= i < v.len()
    &&& family::dispatch_in(v[i].value) matches Some(d)
    &&& d.key == key
    &&& forall|j: int|
        i < j < v.len() && (#[trigger] v[j]).property == v[i].property ==> !(family::dispatch_in(
            v[j].value,
        ) matches Some(d) && d.key == key)
}

proof fn lemma_members(v: Seq<AssignmentModel>, key: Seq<char>, n: nat)
    requires
        n <= v.len(),
    ensures
        ({
            let members = family::members_among(v, key, n);
            &&& forall|j: int|
                0 <= j < members.len() ==> is_member(v, key, #[trigger] members[j])
                    && members[j].index < n
            &&& forall|i: int, j: int|
                0 <= i < j < members.len() ==> (#[trigger] members[i]).index < (
                #[trigger] members[j]).index
            &&& forall|i: int|
                i < n && #[trigger] last_to_dispatch(v, i, key) ==> exists|j: int|
                    0 <= j < members.len() && (#[trigger] members[j]).index == i
        }),
    decreases n,
{
    if n > 0 {
        lemma_members(v, key, (n - 1) as nat);
        let old = family::members_among(v, key, (n - 1) as nat);
        let members = family::members_among(v, key, n);
        let me = n - 1;
        assert(family::counts_for(v, me, key) == last_to_dispatch(v, me, key));
        assert forall|j: int| 0 <= j < members.len() implies is_member(
            v,
            key,
            #[trigger] members[j],
        ) && members[j].index < n by {
            if j < old.len() {
                assert(members[j] == old[j]);
            }
        }
        assert forall|i: int, j: int| 0 <= i < j < members.len() implies (
        #[trigger] members[i]).index < (#[trigger] members[j]).index by {
            assert(members[i] == old[i]);
            if j < old.len() {
                assert(members[j] == old[j]);
            }
        }
        assert forall|i: int| i < n && #[trigger] last_to_dispatch(v, i, key) implies exists|j: int|
            0 <= j < members.len() && (#[trigger] members[j]).index == i by {
            if i < me {
                let j = choose|j: int| 0 <= j < old.len() && (#[trigger] old[j]).index == i;
                assert(members[j] == old[j]);
            } else {
                assert(members[old.len() as int].index == i);
            }
        }
    }
}

/// Is a member an assignment that is the last of its property to dispatch on the key,
/// with the bodies of that dispatch?
pub open spec fn is_member(v: Seq<AssignmentModel>, key: Seq<char>, m: MemberModel) -> bool {
    last_to_dispatch(v, m.index, key) && m.property == v[m.index].property && family::dispatch_in(
        v[m.index].value,
    ) == Some(DispatchModel { key, bodies: m.bodies })
}

proof fn lemma_best(v: Seq<AssignmentModel>, n: nat)
    requires
        n <= v.len(),
    ensures
        forall|i: int|
            0 <= i < n && family::dispatch_in((#[trigger] v[i]).value) is Some
                ==> family::best_key(v, n) is Some && !family::outranks(
                v,
                (family::dispatch_in(v[i].value)->0).key,
                family::best_key(v, n)->0,
            ),
    decreases n,
{
    if n > 0 {
        lemma_best(v, (n - 1) as nat);
    }
}

/// The family of a list of assignments: its members are, in source order, the
/// assignments that are the last of their property to dispatch on its key; there are
/// at least two of them; and no other key has more.
pub proof fn law_family_is_the_largest(v: Seq<AssignmentModel>, other: Seq<char>)
    requires
        family::family_of(v) is Some,
    ensures
        ({
            let f = family::family_of(v)->0;
            &&& f.members.len() >= 2
            &&& forall|j: int|
                0 <= j < f.members.len() ==> is_member(v, f.key, #[trigger] f.members[j])
            &&& forall|i: int, j: int|
                0 <= i < j < f.members.len() ==> (#[trigger] f.members[i]).index < (
                #[trigger] f.members[j]).index
            &&& forall|i: int| #[trigger]
                last_to_dispatch(v, i, f.key) ==> exists|j: int|
                    0 <= j < f.members.len() && (#[trigger] f.members[j]).index == i
            &&& family::members_of(v, other).len() <= f.members.len()
        }),
{
    let f = family::family_of(v)->0;
    lemma_members(v, f.key, v.len());
    lemma_members(v, other, v.len());
    lemma_best(v, v.len());
    let theirs = family::members_of(v, other);
    if theirs.len() > 0 {
        let m = theirs[0];
        assert(is_member(v, other, m));
        assert(family::dispatch_in(v[m.index].value) is Some);
        assert(!family::outranks(v, other, f.key));
    }
    assert(theirs.len() <= f.members.len());
    assert forall|i: int| #[trigger] last_to_dispatch(v, i, f.key) implies exists|j: int|
        0 <= j < f.members.len() && (#[trigger] f.members[j]).index == i by {
        assert(i < v.len());
    }
}

} // verus!

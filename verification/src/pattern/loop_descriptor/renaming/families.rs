//! Dispatches and their families under other names.

use super::super::dispatch;
use super::super::family;
use super::super::family::{DispatchModel, FamilyModel, MemberModel};
use super::super::index;
use super::super::walk;
use super::super::IndirectModel;
use super::parts;
use super::Renaming;
use crate::tables;
use crate::types::{AssignmentModel, BranchModel, CalcKind, ExprModel, TestModel};
use vstd::prelude::*;

verus! {

// ---------------------------------------------------------------------------
// Keys
// ---------------------------------------------------------------------------

proof fn lemma_tested_keys(f: Renaming, v: Seq<BranchModel>)
    ensures
        dispatch::tested_keys(super::branches(f, v)) == super::names(f, dispatch::tested_keys(v)),
    decreases v.len(),
{
    super::lemma_branches(f, v);
    if v.len() > 0 {
        lemma_tested_keys(f, v.drop_last());
        super::lemma_branches(f, v.drop_last());
        assert(super::branches(f, v).drop_last() =~= super::branches(f, v.drop_last()));
        parts::lemma_literal_test(f, v.last());
    }
    assert(dispatch::tested_keys(super::branches(f, v)) =~= super::names(
        f,
        dispatch::tested_keys(v),
    ));
}

proof fn lemma_times(f: Renaming, list: Seq<Seq<char>>, x: Seq<char>)
    requires
        super::is_renaming(f),
    ensures
        dispatch::times(super::names(f, list), f(x)) == dispatch::times(list, x),
    decreases list.len(),
{
    if list.len() > 0 {
        lemma_times(f, list.drop_last(), x);
        assert(super::names(f, list).drop_last() =~= super::names(f, list.drop_last()));
    }
}

proof fn lemma_top_position(f: Renaming, list: Seq<Seq<char>>, n: nat)
    requires
        super::is_renaming(f),
        n <= list.len(),
    ensures
        dispatch::top_position(super::names(f, list), n) == dispatch::top_position(list, n),
        list.len() > 0 ==> 0 <= dispatch::top_position(list, n) < list.len(),
    decreases n,
{
    if n > 1 {
        lemma_top_position(f, list, (n - 1) as nat);
        let best = dispatch::top_position(list, (n - 1) as nat);
        lemma_times(f, list, list[n - 1]);
        lemma_times(f, list, list[best]);
    }
}

proof fn lemma_dominant_key(f: Renaming, v: Seq<BranchModel>)
    requires
        super::is_renaming(f),
    ensures
        dispatch::dominant_key(super::branches(f, v)) == super::name(f, dispatch::dominant_key(v)),
{
    lemma_tested_keys(f, v);
    let keys = dispatch::tested_keys(v);
    lemma_top_position(f, keys, keys.len());
    if keys.len() > 0 {
        lemma_times(f, keys, keys[dispatch::top_position(keys, keys.len())]);
    }
}

proof fn lemma_single_key(f: Renaming, e: ExprModel)
    requires
        super::is_renaming(f),
    ensures
        dispatch::single_key(super::expr(f, e)) == dispatch::single_key(e),
{
    if let ExprModel::Cond(list, _) = e {
        super::lemma_branches(f, list);
        let renamed = super::branches(f, list);
        if dispatch::single_key(e) {
            assert forall|i: int| 0 <= i < renamed.len() implies (
            #[trigger] renamed[i]).literal_test() is Some && renamed[i].test_property()
                == renamed[0].condition->Single_0 by {
                parts::lemma_literal_test(f, list[i]);
                assert(list[i].literal_test() is Some);
            }
        }
        if dispatch::single_key(super::expr(f, e)) {
            assert(renamed[0].condition is Single);
            assert forall|i: int| 0 <= i < list.len() implies (#[trigger] list[i]).literal_test()
                is Some && list[i].test_property() == list[0].condition->Single_0 by {
                parts::lemma_literal_test(f, list[i]);
                assert(renamed[i].literal_test() is Some);
            }
        }
    }
}

// ---------------------------------------------------------------------------
// Dispatches in expressions
// ---------------------------------------------------------------------------

/// A renamed expression, where there is one.
pub open spec fn maybe(f: Renaming, e: Option<ExprModel>) -> Option<ExprModel> {
    match e {
        Some(x) => Some(super::expr(f, x)),
        None => None,
    }
}

pub(super) proof fn lemma_inner_dispatch(f: Renaming, e: ExprModel)
    requires
        super::is_renaming(f),
    ensures
        dispatch::inner_dispatch(super::expr(f, e)) == maybe(f, dispatch::inner_dispatch(e)),
    decreases e, walk::children(e).len() + 1,
{
    lemma_single_key(f, e);
    match e {
        ExprModel::Calc(_, _) => {
            lemma_inner_dispatch_from(f, e, 0);
        },
        ExprModel::Cond(list, fallback) => {
            super::lemma_branches(f, list);
            lemma_inner_dispatch(f, *fallback);
            lemma_tested_keys(f, list);
            lemma_dominant_key(f, list);
        },
        _ => {},
    }
}

proof fn lemma_inner_dispatch_from(f: Renaming, e: ExprModel, i: nat)
    requires
        super::is_renaming(f),
    ensures
        dispatch::inner_dispatch_from(super::expr(f, e), i) == maybe(
            f,
            dispatch::inner_dispatch_from(e, i),
        ),
    decreases e, walk::children(e).len() - i,
{
    super::lemma_children(f, e);
    walk::lemma_children(e);
    let list = walk::children(e);
    super::lemma_exprs(f, list);
    if i < list.len() {
        assert(decreases_to!(e => list[i as int]));
        lemma_inner_dispatch(f, list[i as int]);
        lemma_inner_dispatch_from(f, e, i + 1);
    }
}

pub(super) proof fn lemma_overrides(f: Renaming, e: ExprModel)
    requires
        super::is_renaming(f),
    ensures
        dispatch::overrides(super::expr(f, e)) == super::tests(f, dispatch::overrides(e)),
    decreases e, walk::children(e).len() + 1,
{
    lemma_single_key(f, e);
    super::lemma_tests(f, dispatch::overrides(e));
    match e {
        ExprModel::Calc(_, _) => {
            lemma_overrides_from(f, e, 0);
        },
        ExprModel::Cond(list, fallback) => {
            super::lemma_branches(f, list);
            lemma_inner_dispatch(f, *fallback);
            lemma_overrides(f, *fallback);
            super::lemma_tests(f, dispatch::overrides(*fallback));
        },
        _ => {},
    }
    assert(dispatch::overrides(super::expr(f, e)) =~= super::tests(f, dispatch::overrides(e)));
}

proof fn lemma_overrides_from(f: Renaming, e: ExprModel, i: nat)
    requires
        super::is_renaming(f),
    ensures
        dispatch::overrides_from(super::expr(f, e), i) == super::tests(
            f,
            dispatch::overrides_from(e, i),
        ),
    decreases e, walk::children(e).len() - i,
{
    super::lemma_children(f, e);
    walk::lemma_children(e);
    let list = walk::children(e);
    super::lemma_exprs(f, list);
    if i < list.len() {
        assert(decreases_to!(e => list[i as int]));
        lemma_inner_dispatch(f, list[i as int]);
        lemma_overrides(f, list[i as int]);
        lemma_overrides_from(f, e, i + 1);
    } else {
        super::lemma_tests(f, Seq::<TestModel>::empty());
        assert(super::tests(f, Seq::<TestModel>::empty()) =~= Seq::<TestModel>::empty());
    }
}

// ---------------------------------------------------------------------------
// Families
// ---------------------------------------------------------------------------

/// Renamed bodies.
pub open spec fn bodies(f: Renaming, m: Map<i64, ExprModel>) -> Map<i64, ExprModel> {
    m.map_values(|e: ExprModel| super::expr(f, e))
}

/// A renamed dispatch, where there is one.
pub open spec fn dispatch_model(f: Renaming, d: Option<DispatchModel>) -> Option<DispatchModel> {
    match d {
        Some(m) => Some(DispatchModel { key: f(m.key), bodies: bodies(f, m.bodies) }),
        None => None,
    }
}

/// A renamed member.
pub open spec fn member(f: Renaming, m: MemberModel) -> MemberModel {
    MemberModel { index: m.index, property: f(m.property), bodies: bodies(f, m.bodies) }
}

/// Renamed members.
pub open spec fn members(f: Renaming, v: Seq<MemberModel>) -> Seq<MemberModel> {
    Seq::new(v.len(), |i: int| member(f, v[i]))
}

/// A renamed family.
pub open spec fn family_model(f: Renaming, m: FamilyModel) -> FamilyModel {
    FamilyModel { key: f(m.key), members: members(f, m.members) }
}

/// Renamed pairs of a number and a body.
pub open spec fn numbered(f: Renaming, v: Seq<(i64, ExprModel)>) -> Seq<(i64, ExprModel)> {
    Seq::new(v.len(), |i: int| (v[i].0, super::expr(f, v[i].1)))
}

proof fn lemma_bodies_for(f: Renaming, v: Seq<BranchModel>, key: Seq<char>)
    requires
        super::is_renaming(f),
    ensures
        family::bodies_for(super::branches(f, v), f(key)) == numbered(
            f,
            family::bodies_for(v, key),
        ),
    decreases v.len(),
{
    super::lemma_branches(f, v);
    if v.len() > 0 {
        lemma_bodies_for(f, v.drop_last(), key);
        super::lemma_branches(f, v.drop_last());
        assert(super::branches(f, v).drop_last() =~= super::branches(f, v.drop_last()));
        parts::lemma_literal_test(f, v.last());
    }
    assert(family::bodies_for(super::branches(f, v), f(key)) =~= numbered(
        f,
        family::bodies_for(v, key),
    ));
}

proof fn lemma_first_of(f: Renaming, v: Seq<(i64, ExprModel)>)
    ensures
        tables::first_of(numbered(f, v)) == bodies(f, tables::first_of(v)),
    decreases v.len(),
{
    if v.len() > 0 {
        lemma_first_of(f, v.drop_last());
        assert(numbered(f, v).drop_last() =~= numbered(f, v.drop_last()));
    }
    assert(tables::first_of(numbered(f, v)) =~= bodies(f, tables::first_of(v)));
}

pub(super) proof fn lemma_dispatch_in(f: Renaming, value: ExprModel)
    requires
        super::is_renaming(f),
    ensures
        family::dispatch_in(super::expr(f, value)) == dispatch_model(
            f,
            family::dispatch_in(value),
        ),
{
    lemma_inner_dispatch(f, value);
    if let Some(ExprModel::Cond(list, _)) = dispatch::inner_dispatch(value) {
        lemma_dominant_key(f, list);
        if let Some(key) = dispatch::dominant_key(list) {
            lemma_bodies_for(f, list, key);
            lemma_first_of(f, family::bodies_for(list, key));
        }
    }
}

proof fn lemma_dispatches_on(f: Renaming, v: Seq<AssignmentModel>, i: int, key: Seq<char>)
    requires
        super::is_renaming(f),
        0 <= i < v.len(),
    ensures
        family::dispatches_on(super::assignments(f, v), i, f(key)) == family::dispatches_on(
            v,
            i,
            key,
        ),
{
    lemma_dispatch_in(f, v[i].value);
}

proof fn lemma_counts_for(f: Renaming, v: Seq<AssignmentModel>, i: int, key: Seq<char>)
    requires
        super::is_renaming(f),
        0 <= i < v.len(),
    ensures
        family::counts_for(super::assignments(f, v), i, f(key)) == family::counts_for(v, i, key),
{
    let w = super::assignments(f, v);
    lemma_dispatches_on(f, v, i, key);
    if family::counts_for(v, i, key) {
        assert forall|j: int| i < j < w.len() && family::dispatches_on(w, j, f(key)) implies (
        #[trigger] w[j]).property != w[i].property by {
            lemma_dispatches_on(f, v, j, key);
            assert(v[j].property != v[i].property);
        }
    }
    if family::counts_for(w, i, f(key)) {
        assert forall|j: int| i < j < v.len() && family::dispatches_on(v, j, key) implies (
        #[trigger] v[j]).property != v[i].property by {
            lemma_dispatches_on(f, v, j, key);
            assert(w[j].property != w[i].property);
        }
    }
}

proof fn lemma_members_among(f: Renaming, v: Seq<AssignmentModel>, key: Seq<char>, n: nat)
    requires
        super::is_renaming(f),
        n <= v.len(),
    ensures
        family::members_among(super::assignments(f, v), f(key), n) == members(
            f,
            family::members_among(v, key, n),
        ),
    decreases n,
{
    if n > 0 {
        lemma_members_among(f, v, key, (n - 1) as nat);
        lemma_counts_for(f, v, n - 1, key);
        lemma_dispatch_in(f, v[n - 1].value);
    }
    assert(family::members_among(super::assignments(f, v), f(key), n) =~= members(
        f,
        family::members_among(v, key, n),
    ));
}

proof fn lemma_body_count(f: Renaming, v: Seq<MemberModel>)
    ensures
        family::body_count(members(f, v)) == family::body_count(v),
    decreases v.len(),
{
    if v.len() > 0 {
        lemma_body_count(f, v.drop_last());
        assert(members(f, v).drop_last() =~= members(f, v.drop_last()));
        assert(bodies(f, v.last().bodies).dom() =~= v.last().bodies.dom());
    }
}

proof fn lemma_outranks(f: Renaming, v: Seq<AssignmentModel>, a: Seq<char>, b: Seq<char>)
    requires
        super::is_renaming(f),
    ensures
        family::outranks(super::assignments(f, v), f(a), f(b)) == family::outranks(v, a, b),
{
    lemma_members_among(f, v, a, v.len());
    lemma_members_among(f, v, b, v.len());
    lemma_body_count(f, family::members_of(v, a));
    lemma_body_count(f, family::members_of(v, b));
}

proof fn lemma_best_key(f: Renaming, v: Seq<AssignmentModel>, n: nat)
    requires
        super::is_renaming(f),
        n <= v.len(),
    ensures
        family::best_key(super::assignments(f, v), n) == super::name(f, family::best_key(v, n)),
    decreases n,
{
    if n > 0 {
        lemma_best_key(f, v, (n - 1) as nat);
        lemma_dispatch_in(f, v[n - 1].value);
        if let (Some(d), Some(k)) = (
            family::dispatch_in(v[n - 1].value),
            family::best_key(v, (n - 1) as nat),
        ) {
            lemma_outranks(f, v, d.key, k);
        }
    }
}

pub(super) proof fn lemma_family_of(f: Renaming, v: Seq<AssignmentModel>)
    requires
        super::is_renaming(f),
    ensures
        family::family_of(super::assignments(f, v)) == match family::family_of(v) {
            Some(m) => Some(family_model(f, m)),
            None => None,
        },
{
    lemma_best_key(f, v, v.len());
    if let Some(key) = family::best_key(v, v.len()) {
        lemma_members_among(f, v, key, v.len());
    }
}

pub(super) proof fn lemma_has_body(f: Renaming, v: Seq<MemberModel>, k: i64)
    ensures
        family::has_body(members(f, v), k) == family::has_body(v, k),
{
    if family::has_body(v, k) {
        let i = choose|i: int| 0 <= i < v.len() && (#[trigger] v[i]).bodies.contains_key(k);
        assert(members(f, v)[i].bodies.contains_key(k));
    }
    if family::has_body(members(f, v), k) {
        let i = choose|i: int|
            0 <= i < members(f, v).len() && (#[trigger] members(f, v)[i]).bodies.contains_key(k);
        assert(v[i].bodies.contains_key(k));
    }
}

// ---------------------------------------------------------------------------
// Assigned values
// ---------------------------------------------------------------------------

pub(super) proof fn lemma_assigned(f: Renaming, v: Seq<AssignmentModel>, x: Seq<char>)
    requires
        super::is_renaming(f),
    ensures
        index::assigned(super::assignments(f, v), f(x)) == maybe(f, index::assigned(v, x)),
    decreases v.len(),
{
    if v.len() > 0 {
        lemma_assigned(f, v.drop_last(), x);
        assert(super::assignments(f, v).drop_last() =~= super::assignments(f, v.drop_last()));
    }
}

pub(super) proof fn lemma_decomposed(f: Renaming, e: ExprModel)
    ensures
        index::decomposed(super::expr(f, e)) == parts::name_pair(f, index::decomposed(e)),
    decreases e, walk::children(e).len() + 1,
{
    parts::lemma_segmented(f, e);
    lemma_decomposed_from(f, e, 0);
}

proof fn lemma_decomposed_from(f: Renaming, e: ExprModel, i: nat)
    ensures
        index::decomposed_from(super::expr(f, e), i) == parts::name_pair(
            f,
            index::decomposed_from(e, i),
        ),
    decreases e, walk::children(e).len() - i,
{
    super::lemma_children(f, e);
    walk::lemma_children(e);
    let list = walk::children(e);
    super::lemma_exprs(f, list);
    if i < list.len() {
        assert(decreases_to!(e => list[i as int]));
        lemma_decomposed(f, list[i as int]);
        lemma_decomposed_from(f, e, i + 1);
    }
}

proof fn lemma_added_segment(f: Renaming, e: ExprModel, pointer: Seq<char>)
    requires
        super::is_renaming(f),
    ensures
        index::added_segment(super::expr(f, e), f(pointer)) == super::name(
            f,
            index::added_segment(e, pointer),
        ),
    decreases e,
{
    if let ExprModel::Calc(kind, list) = e {
        super::lemma_exprs(f, list);
        if kind == CalcKind::Add && list.len() == 2 {
            assert(decreases_to!(list => list[0]));
            assert(decreases_to!(list => list[1]));
            lemma_added_segment(f, list[0], pointer);
            lemma_added_segment(f, list[1], pointer);
        }
    }
}

/// A renamed indirect read, where there is one.
pub open spec fn indirect(f: Renaming, m: Option<IndirectModel>) -> Option<IndirectModel> {
    match m {
        Some(x) => Some(
            IndirectModel {
                segment: super::name(f, x.segment),
                scaled: x.scaled,
                pointer: f(x.pointer),
                through: f(x.through),
            },
        ),
        None => None,
    }
}

pub(super) proof fn lemma_indirect_read(
    f: Renaming,
    value: ExprModel,
    mirrors: Seq<Seq<char>>,
    v: Seq<AssignmentModel>,
)
    requires
        super::is_renaming(f),
    ensures
        index::indirect_read(
            super::expr(f, value),
            super::names(f, mirrors),
            super::assignments(f, v),
        ) == indirect(f, index::indirect_read(value, mirrors, v)),
{
    if let Some(x) = value.bare_var() {
        lemma_assigned(f, v, x);
        if let Some(ExprModel::Call(_, args)) = index::assigned(v, x) {
            super::lemma_names_in_list(f, args, true);
            super::lemma_exprs(f, args);
            let found = walk::names_in_list(args, true);
            super::lemma_first_of(f, found, mirrors);
            if let Some(pointer) = walk::first_of(found, mirrors) {
                if args.len() > 0 {
                    lemma_added_segment(f, args[0], pointer);
                } else {
                    assert(found =~= Seq::<Seq<char>>::empty());
                }
            }
        }
    }
}

} // verus!

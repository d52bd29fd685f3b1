//! Loops are recognised under any names.

use super::super::comparison;
use super::super::dispatch;
use super::super::family;
use super::super::family::{FamilyModel, MemberModel};
use super::super::index;
use super::super::opcode;
use super::super::opcode::{RoleModel, SideModel};
use super::super::walk;
use super::super::{CounterModel, LoopModel, StoreModel};
use super::charges;
use super::comparisons;
use super::families;
use super::parts;
use super::Renaming;
use crate::tables;
use crate::types::{AssignmentModel, ExprModel, TestModel};
use vstd::prelude::*;

verus! {

/// A renamed role.
pub open spec fn role(f: Renaming, m: RoleModel) -> RoleModel {
    match m {
        RoleModel::Absent => RoleModel::Absent,
        RoleModel::Counter(c) => RoleModel::Counter(parts::counter(f, c)),
        RoleModel::Pointer(p) => RoleModel::Pointer(parts::pointer(f, p)),
        RoleModel::Store { is_address, body } => RoleModel::Store {
            is_address,
            body: super::expr(f, body),
        },
    }
}

/// A renamed side of a write.
pub open spec fn side(f: Renaming, m: SideModel) -> SideModel {
    SideModel { index: m.index, property: f(m.property), body: super::expr(f, m.body) }
}

/// Renamed sides of writes.
pub open spec fn sides(f: Renaming, v: Seq<SideModel>) -> Seq<SideModel> {
    Seq::new(v.len(), |i: int| side(f, v[i]))
}

/// A renamed write.
pub open spec fn store(f: Renaming, m: StoreModel) -> StoreModel {
    StoreModel {
        addr_property: f(m.addr_property),
        val_property: f(m.val_property),
        addr: super::expr(f, m.addr),
        value: super::expr(f, m.value),
        parts: parts::name_pair(f, m.parts),
        read: families::indirect(f, m.read),
    }
}

/// Renamed writes.
pub open spec fn stores(f: Renaming, v: Seq<StoreModel>) -> Seq<StoreModel> {
    Seq::new(v.len(), |i: int| store(f, v[i]))
}

/// A renamed counter, where there is one.
pub open spec fn maybe_counter(f: Renaming, m: Option<CounterModel>) -> Option<CounterModel> {
    match m {
        Some(c) => Some(parts::counter(f, c)),
        None => None,
    }
}

/// Renamed overrides, where there are any.
pub open spec fn maybe_tests(f: Renaming, m: Option<Seq<TestModel>>) -> Option<Seq<TestModel>> {
    match m {
        Some(v) => Some(super::tests(f, v)),
        None => None,
    }
}

/// A renamed loop.
pub open spec fn loop_model(f: Renaming, m: LoopModel) -> LoopModel {
    LoopModel {
        key: f(m.key),
        value: m.value,
        ip: f(m.ip),
        ip_prior: f(m.ip_prior),
        ip_advance: m.ip_advance,
        tested: super::names(f, m.tested),
        predicate: super::test(f, m.predicate),
        holds_means_stay: m.holds_means_stay,
        counter: maybe_counter(f, m.counter),
        pointers: comparisons::pointers(f, m.pointers),
        writes: stores(f, m.writes),
        flag_conditioned: m.flag_conditioned,
        class: m.class,
        charge: charges::charge_model(f, m.charge),
        ip_extra: super::name(f, m.ip_extra),
        comparison: comparisons::comparison_model(f, m.comparison),
        overrides: maybe_tests(f, m.overrides),
    }
}

/// Renamed loops.
pub open spec fn loops(f: Renaming, v: Seq<LoopModel>) -> Seq<LoopModel> {
    Seq::new(v.len(), |i: int| loop_model(f, v[i]))
}

// ---------------------------------------------------------------------------
// Roles
// ---------------------------------------------------------------------------

proof fn lemma_role(f: Renaming, m: MemberModel, k: i64, ip: Seq<char>)
    requires
        super::is_renaming(f),
    ensures
        opcode::role(families::member(f, m), k, f(ip)) == role(f, opcode::role(m, k, ip)),
{
    if m.property != ip && m.bodies.contains_key(k) {
        let body = m.bodies[k];
        parts::lemma_counter_shape(f, body, m.property);
        parts::lemma_pointer_shape(f, body, m.property);
        super::lemma_has_minus_one(f, body);
    }
}

proof fn lemma_counter_in(f: Renaming, v: Seq<MemberModel>, k: i64, ip: Seq<char>)
    requires
        super::is_renaming(f),
    ensures
        opcode::counter_in(families::members(f, v), k, f(ip)) == maybe_counter(
            f,
            opcode::counter_in(v, k, ip),
        ),
    decreases v.len(),
{
    if v.len() > 0 {
        lemma_counter_in(f, v.drop_last(), k, ip);
        lemma_role(f, v.last(), k, ip);
        assert(families::members(f, v).drop_last() =~= families::members(f, v.drop_last()));
    }
}

proof fn lemma_pointers_in(f: Renaming, v: Seq<MemberModel>, k: i64, ip: Seq<char>)
    requires
        super::is_renaming(f),
    ensures
        opcode::pointers_in(families::members(f, v), k, f(ip)) == comparisons::pointers(
            f,
            opcode::pointers_in(v, k, ip),
        ),
    decreases v.len(),
{
    if v.len() > 0 {
        lemma_pointers_in(f, v.drop_last(), k, ip);
        lemma_role(f, v.last(), k, ip);
        assert(families::members(f, v).drop_last() =~= families::members(f, v.drop_last()));
    }
    assert(opcode::pointers_in(families::members(f, v), k, f(ip)) =~= comparisons::pointers(
        f,
        opcode::pointers_in(v, k, ip),
    ));
}

proof fn lemma_sides_in(f: Renaming, v: Seq<MemberModel>, k: i64, ip: Seq<char>, addresses: bool)
    requires
        super::is_renaming(f),
    ensures
        opcode::sides_in(families::members(f, v), k, f(ip), addresses) == sides(
            f,
            opcode::sides_in(v, k, ip, addresses),
        ),
    decreases v.len(),
{
    if v.len() > 0 {
        lemma_sides_in(f, v.drop_last(), k, ip, addresses);
        lemma_role(f, v.last(), k, ip);
        assert(families::members(f, v).drop_last() =~= families::members(f, v.drop_last()));
    }
    assert(opcode::sides_in(families::members(f, v), k, f(ip), addresses) =~= sides(
        f,
        opcode::sides_in(v, k, ip, addresses),
    ));
}

// ---------------------------------------------------------------------------
// Writes
// ---------------------------------------------------------------------------

proof fn lemma_nearest(f: Renaming, v: Seq<SideModel>, at: int, n: nat)
    requires
        n <= v.len(),
    ensures
        opcode::nearest(sides(f, v), at, n) == opcode::nearest(v, at, n),
        v.len() > 0 ==> 0 <= opcode::nearest(v, at, n) < v.len(),
    decreases n,
{
    if n > 1 {
        lemma_nearest(f, v, at, (n - 1) as nat);
    }
}

proof fn lemma_store_of(
    f: Renaming,
    address: SideModel,
    value: Option<SideModel>,
    mirrors: Seq<Seq<char>>,
    v: Seq<AssignmentModel>,
)
    requires
        super::is_renaming(f),
    ensures
        opcode::store_of(
            side(f, address),
            match value {
                Some(s) => Some(side(f, s)),
                None => None,
            },
            super::names(f, mirrors),
            super::assignments(f, v),
        ) == store(f, opcode::store_of(address, value, mirrors, v)),
{
    families::lemma_decomposed(f, address.body);
    if let Some(s) = value {
        families::lemma_indirect_read(f, s.body, mirrors, v);
    }
}

proof fn lemma_stores(
    f: Renaming,
    addresses: Seq<SideModel>,
    values: Seq<SideModel>,
    mirrors: Seq<Seq<char>>,
    v: Seq<AssignmentModel>,
)
    requires
        super::is_renaming(f),
    ensures
        opcode::stores(
            sides(f, addresses),
            sides(f, values),
            super::names(f, mirrors),
            super::assignments(f, v),
        ) == stores(f, opcode::stores(addresses, values, mirrors, v)),
    decreases addresses.len(),
{
    let w = super::assignments(f, v);
    if addresses.len() > 0 {
        let rest = addresses.subrange(1, addresses.len() as int);
        assert(sides(f, addresses).subrange(1, addresses.len() as int) =~= sides(f, rest));
        if values.len() == 0 {
            lemma_store_of(f, addresses[0], None, mirrors, v);
            lemma_stores(f, rest, values, mirrors, v);
        } else {
            lemma_nearest(f, values, addresses[0].index, values.len());
            let at = opcode::nearest(values, addresses[0].index, values.len());
            lemma_store_of(f, addresses[0], Some(values[at]), mirrors, v);
            assert(sides(f, values).remove(at) =~= sides(f, values.remove(at)));
            lemma_stores(f, rest, values.remove(at), mirrors, v);
        }
    }
    assert(opcode::stores(sides(f, addresses), sides(f, values), super::names(f, mirrors), w) =~= stores(
        f,
        opcode::stores(addresses, values, mirrors, v),
    ));
}

proof fn lemma_bulk_class(
    f: Renaming,
    mirrors: Seq<Seq<char>>,
    writes: Seq<StoreModel>,
)
    requires
        super::is_renaming(f),
    ensures
        opcode::bulk_class(super::names(f, mirrors), stores(f, writes)) == opcode::bulk_class(mirrors, writes),
{
    let after = stores(f, writes);
    let renamed = super::names(f, mirrors);
    assert forall|i: int| 0 <= i < writes.len() implies walk::mentions(
        (#[trigger] after[i]).value,
        renamed,
    ) == walk::mentions(writes[i].value, mirrors) by {
        super::lemma_mentions(f, writes[i].value, mirrors);
    }
    if exists|i: int|
        0 <= i < writes.len() && (walk::mentions((#[trigger] writes[i]).value, mirrors)
            || writes[i].read is Some) {
        let i = choose|i: int|
            0 <= i < writes.len() && (walk::mentions((#[trigger] writes[i]).value, mirrors)
                || writes[i].read is Some);
        assert(walk::mentions(after[i].value, renamed) || after[i].read is Some);
    }
    if exists|i: int|
        0 <= i < after.len() && (walk::mentions((#[trigger] after[i]).value, renamed)
            || after[i].read is Some) {
        let i = choose|i: int|
            0 <= i < after.len() && (walk::mentions((#[trigger] after[i]).value, renamed)
                || after[i].read is Some);
        assert(walk::mentions(writes[i].value, mirrors) || writes[i].read is Some);
    }
}

proof fn lemma_ip_from(f: Renaming, v: Seq<MemberModel>, k: i64, i: nat)
    requires
        super::is_renaming(f),
    ensures
        opcode::ip_from(families::members(f, v), k, i) == match opcode::ip_from(v, k, i) {
            Some((property, m)) => Some((f(property), parts::ip(f, m))),
            None => None,
        },
    decreases v.len() - i,
{
    if i < v.len() {
        lemma_ip_from(f, v, k, i + 1);
        if v[i as int].bodies.contains_key(k) {
            parts::lemma_ip_shape(f, v[i as int].bodies[k]);
        }
    }
}

proof fn lemma_precondition(f: Renaming, v: Seq<AssignmentModel>, ip: Seq<char>)
    requires
        super::is_renaming(f),
    ensures
        opcode::precondition(super::assignments(f, v), f(ip)) == maybe_tests(
            f,
            opcode::precondition(v, ip),
        ),
{
    families::lemma_assigned(f, v, ip);
    if let Some(top) = index::assigned(v, ip) {
        families::lemma_overrides(f, top);
        super::lemma_tests(f, dispatch::overrides(top));
    }
}

// ---------------------------------------------------------------------------
// Loops
// ---------------------------------------------------------------------------

proof fn lemma_loop_for(f: Renaming, m: FamilyModel, k: i64, v: Seq<AssignmentModel>)
    requires
        super::is_renaming(f),
        charges::finite_bodies(m.members),
    ensures
        opcode::loop_for(families::family_model(f, m), k, super::assignments(f, v))
            == match opcode::loop_for(m, k, v) {
            Some(x) => Some(loop_model(f, x)),
            None => None,
        },
{
    reveal(opcode::loop_for);
    let list = m.members;
    lemma_ip_from(f, list, k, 0);
    if let Some((ip, shape)) = opcode::ip_from(list, k, 0) {
        super::lemma_tested_in(f, shape.predicate);
        super::lemma_once_each(f, walk::tested_in(shape.predicate));
        lemma_counter_in(f, list, k, ip);
        lemma_pointers_in(f, list, k, ip);
        let pointers = opcode::pointers_in(list, k, ip);
        comparisons::lemma_priors(f, pointers);
        let mirrors = comparison::priors(pointers);
        lemma_sides_in(f, list, k, ip, true);
        lemma_sides_in(f, list, k, ip, false);
        let addresses = opcode::sides_in(list, k, ip, true);
        let values = opcode::sides_in(list, k, ip, false);
        lemma_stores(f, addresses, values, mirrors, v);
        lemma_bulk_class(f, mirrors, opcode::stores(addresses, values, mirrors, v));
        lemma_precondition(f, v, ip);
        charges::lemma_charge(f, list, k);
        if pointers.len() > 0 {
            comparisons::lemma_comparison(f, list, k, pointers, shape.predicate, v);
        }
    }
}

// ---------------------------------------------------------------------------
// Laws
// ---------------------------------------------------------------------------

proof fn lemma_finite(items: Seq<(i64, ExprModel)>)
    ensures
        tables::first_of(items).dom().finite(),
    decreases items.len(),
{
    if items.len() > 0 {
        lemma_finite(items.drop_last());
    }
}

proof fn lemma_members(v: Seq<AssignmentModel>, key: Seq<char>, n: nat)
    requires
        n <= v.len(),
    ensures
        forall|i: int|
            #![trigger family::members_among(v, key, n)[i]]
            0 <= i < family::members_among(v, key, n).len() ==> {
                let m = family::members_among(v, key, n)[i];
                &&& 0 <= m.index < n
                &&& m.property == v[m.index].property
                &&& family::dispatch_in(v[m.index].value) is Some
                &&& m.bodies == (family::dispatch_in(v[m.index].value)->0).bodies
            },
    decreases n,
{
    if n > 0 {
        lemma_members(v, key, (n - 1) as nat);
    }
}

proof fn lemma_finite_bodies(v: Seq<AssignmentModel>, key: Seq<char>)
    ensures
        charges::finite_bodies(family::members_of(v, key)),
{
    let list = family::members_of(v, key);
    lemma_members(v, key, v.len());
    assert forall|i: int| 0 <= i < list.len() implies (
    #[trigger] list[i]).bodies.dom().finite() by {
        let value = v[list[i].index].value;
        if let Some(ExprModel::Cond(branches, _)) = dispatch::inner_dispatch(value) {
            if let Some(k) = dispatch::dominant_key(branches) {
                lemma_finite(family::bodies_for(branches, k));
            }
        }
    }
}

/// Two increasing lists of the same numbers are the same.
proof fn lemma_increasing_same(a: Seq<i64>, b: Seq<i64>)
    requires
        family::increasing(a),
        family::increasing(b),
        forall|k: i64| #![trigger a.contains(k)] #![trigger b.contains(k)] a.contains(k) == b.contains(k),
    ensures
        a == b,
    decreases a.len(),
{
    if a.len() == 0 {
        if b.len() > 0 {
            assert(b.contains(b[0]));
            assert(a.contains(b[0]));
        }
        assert(a =~= b);
    } else {
        assert(a.contains(a.last()));
        assert(b.contains(a.last()));
        assert(b.contains(b.last()));
        assert(a.contains(b.last()));
        assert(a.last() == b.last());
        let x = a.drop_last();
        let y = b.drop_last();
        assert forall|k: i64| x.contains(k) == y.contains(k) by {
            lemma_dropped(a, k);
            lemma_dropped(b, k);
            assert(a.contains(k) == b.contains(k));
        }
        lemma_increasing_same(x, y);
        assert(a =~= x.push(a.last()));
        assert(b =~= y.push(b.last()));
    }
}

proof fn lemma_dropped(a: Seq<i64>, k: i64)
    requires
        family::increasing(a),
        a.len() > 0,
    ensures
        a.drop_last().contains(k) == (a.contains(k) && k != a.last()),
{
    if a.contains(k) && k != a.last() {
        let i = choose|i: int| 0 <= i < a.len() && a[i] == k;
        assert(a.drop_last()[i] == k);
    }
    if a.drop_last().contains(k) {
        let i = choose|i: int| 0 <= i < a.drop_last().len() && a.drop_last()[i] == k;
        assert(a[i] == k);
        assert(a[i] < a[a.len() - 1]);
    }
}

/// The numbers of loops.
spec fn numbers(v: Seq<LoopModel>) -> Seq<i64> {
    Seq::new(v.len(), |i: int| v[i].value)
}

proof fn lemma_same_numbers(
    f: Renaming,
    v: Seq<AssignmentModel>,
    m: FamilyModel,
    found: Seq<LoopModel>,
    renamed: Seq<LoopModel>,
)
    requires
        super::is_renaming(f),
        charges::finite_bodies(m.members),
        family::family_of(v) == Some(m),
        family::family_of(super::assignments(f, v)) == Some(families::family_model(f, m)),
        super::super::are_loops_of(found, v),
        super::super::are_loops_of(renamed, super::assignments(f, v)),
    ensures
        numbers(found) == numbers(renamed),
{
    let w = super::assignments(f, v);
    let n = families::family_model(f, m);
    let a = numbers(found);
    let b = numbers(renamed);
    assert forall|i: int, j: int| 0 <= i < j < a.len() implies a[i] < a[j] by {
        assert(found[i].value < found[j].value);
    }
    assert forall|i: int, j: int| 0 <= i < j < b.len() implies b[i] < b[j] by {
        assert(renamed[i].value < renamed[j].value);
    }
    assert forall|k: i64| a.contains(k) == b.contains(k) by {
        families::lemma_has_body(f, m.members, k);
        lemma_loop_for(f, m, k, v);
        if a.contains(k) {
            let i = choose|i: int| 0 <= i < a.len() && a[i] == k;
            assert(opcode::loop_for(m, found[i].value, v) is Some);
            assert(opcode::loop_for(n, k, w) is Some);
            let j = choose|j: int| 0 <= j < renamed.len() && (#[trigger] renamed[j]).value == k;
            assert(b[j] == k);
        }
        if b.contains(k) {
            let i = choose|i: int| 0 <= i < b.len() && b[i] == k;
            assert(opcode::loop_for(n, renamed[i].value, w) is Some);
            assert(opcode::loop_for(m, k, v) is Some);
            let j = choose|j: int| 0 <= j < found.len() && (#[trigger] found[j]).value == k;
            assert(a[j] == k);
        }
    }
    lemma_increasing_same(a, b);
}

proof fn lemma_same_loop(
    f: Renaming,
    v: Seq<AssignmentModel>,
    m: FamilyModel,
    before: LoopModel,
    after: LoopModel,
)
    requires
        super::is_renaming(f),
        charges::finite_bodies(m.members),
        opcode::loop_for(m, before.value, v) == Some(before),
        opcode::loop_for(
            families::family_model(f, m),
            before.value,
            super::assignments(f, v),
        ) == Some(after),
    ensures
        after == loop_model(f, before),
{
    lemma_loop_for(f, m, before.value, v);
}

/// Loops are recognised whatever the names: the loops of renamed assignments are
/// the renamed loops.
pub proof fn law_loops_are_renamed(
    f: Renaming,
    v: Seq<AssignmentModel>,
    found: Seq<LoopModel>,
    renamed: Seq<LoopModel>,
)
    requires
        super::is_renaming(f),
        super::super::are_loops_of(found, v),
        super::super::are_loops_of(renamed, super::assignments(f, v)),
    ensures
        renamed == loops(f, found),
{
    families::lemma_family_of(f, v);
    if let Some(m) = family::family_of(v) {
        lemma_finite_bodies(v, m.key);
        lemma_same_numbers(f, v, m, found, renamed);
        assert(numbers(found).len() == numbers(renamed).len());
        assert forall|i: int| 0 <= i < found.len() implies renamed[i] == #[trigger] loops(
            f,
            found,
        )[i] by {
            assert(numbers(found)[i] == numbers(renamed)[i]);
            assert(found[i].value == renamed[i].value);
            lemma_same_loop(f, v, m, found[i], renamed[i]);
        }
    }
    assert(renamed.len() == loops(f, found).len());
    assert(renamed =~= loops(f, found));
}

} // verus!

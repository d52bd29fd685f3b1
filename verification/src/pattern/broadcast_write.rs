//! Broadcast writes: `if(style(--dest: N): value; else: keep)` as direct stores.
//!
//! Many properties that each compare one destination property with an address of
//! their own, and otherwise keep their value, are one store: evaluate the
//! destination once and write the value to the property at that address.

use crate::names;
use crate::number;
use crate::tables;
use crate::text;
use crate::types;
use crate::types::{
    Assignment, AssignmentModel, BranchModel, Expr, ExprModel, StyleBranch, StyleTest, TestModel,
};
use std::collections::HashMap;
use vstd::hash_map::StringHashMap;
use vstd::hash_set::StringHashSet;
use vstd::prelude::*;

verus! {

broadcast use vstd::std_specs::hash::group_hash_axioms;

/// A recognised broadcast write.
#[derive(Debug)]
pub struct BroadcastWrite {
    /// The destination property (e.g. `--addrDestA`).
    pub dest_property: String,
    /// The value that is stored.
    pub value_expr: Expr,
    /// Map from an address to the property that is written there.
    pub address_map: HashMap<i64, String>,
    /// Second half of a word write: map from the destination address to the
    /// property behind the next one, and the value stored there.
    pub spillover_map: HashMap<i64, (String, Expr)>,
    /// The property that gates the second half (e.g. `--isWordWrite`).
    pub spillover_guard: Option<String>,
}

/// Result of the recognition.
pub struct BroadcastResult {
    /// The writes, one per destination property.
    pub writes: Vec<BroadcastWrite>,
    /// Properties that the writes replace entirely.
    pub absorbed_properties: StringHashSet,
}

/// Fewest properties that count as a broadcast.
pub const MIN_BROADCAST_TARGETS: usize = 10;

// ---------------------------------------------------------------------------
// Ports
// ---------------------------------------------------------------------------

/// One branch of an assignment, seen as a store.
#[verifier::ext_equal]
pub enum PortShape {
    /// While `dest` equals `addr`, the property takes `value`.
    Direct { dest: Seq<char>, addr: i64, value: ExprModel },
    /// While `dest` equals `source` and `guard` is 1, the property takes
    /// `value`.
    Spillover { dest: Seq<char>, source: i64, guard: Seq<char>, value: ExprModel },
}

/// Property and integer of a plain test against a literal.
pub open spec fn literal_of(t: TestModel) -> Option<(Seq<char>, i64)> {
    match t {
        TestModel::Single(property, value) => match *value {
            ExprModel::Number(bits) => Some((property, number::as_i64(bits))),
            _ => None,
        },
        _ => None,
    }
}

/// The store that a branch stands for. Of two joined tests the one against 1 is
/// the guard, the first one if both are.
pub open spec fn port_shape(b: BranchModel) -> Option<PortShape> {
    match b.condition {
        TestModel::Single(..) => match literal_of(b.condition) {
            Some((dest, addr)) => Some(PortShape::Direct { dest, addr, value: b.body }),
            None => None,
        },
        TestModel::And(tests) => if tests.len() == 2 {
            match (literal_of(tests[0]), literal_of(tests[1])) {
                (Some((p, v)), Some((q, w))) => if v == 1 {
                    Some(PortShape::Spillover { dest: q, source: w, guard: p, value: b.body })
                } else if w == 1 {
                    Some(PortShape::Spillover { dest: p, source: v, guard: q, value: b.body })
                } else {
                    None
                },
                _ => None,
            }
        } else {
            None
        },
        _ => None,
    }
}

/// Does the fallback of an assignment keep the property's value?
pub open spec fn simple_keep(fallback: ExprModel, property: Seq<char>) -> bool {
    match fallback {
        ExprModel::Var(name, _) => names::keeps(name, property),
        _ => false,
    }
}

/// The stores of an assignment, if it consists of stores alone and otherwise
/// keeps its value. Buffer copies have none.
pub open spec fn ports_of(a: AssignmentModel) -> Option<Seq<PortShape>> {
    if text::starts_with(a.property, "--__"@) {
        None
    } else {
        match a.value {
            ExprModel::Cond(branches, fallback) => if simple_keep(*fallback, a.property)
                && branches.len() > 0 && forall|i: int|
                0 <= i < branches.len() ==> port_shape(#[trigger] branches[i]) is Some {
                Some(Seq::new(branches.len(), |i: int| port_shape(branches[i])->0))
            } else {
                None
            },
            _ => None,
        }
    }
}

/// A direct store and the property it belongs to.
#[verifier::ext_equal]
pub struct DirectModel {
    pub dest: Seq<char>,
    pub addr: i64,
    pub owner: Seq<char>,
    pub value: ExprModel,
}

/// A spillover store and the property it belongs to.
#[verifier::ext_equal]
pub struct SpillModel {
    pub dest: Seq<char>,
    pub source: i64,
    pub owner: Seq<char>,
    pub guard: Seq<char>,
    pub value: ExprModel,
}

/// The direct stores among some ports of a property.
pub open spec fn directs_in(ports: Seq<PortShape>, owner: Seq<char>) -> Seq<DirectModel>
    decreases ports.len(),
{
    if ports.len() == 0 {
        Seq::empty()
    } else {
        match ports.last() {
            PortShape::Direct { dest, addr, value } => directs_in(ports.drop_last(), owner).push(
                DirectModel { dest, addr, owner, value },
            ),
            _ => directs_in(ports.drop_last(), owner),
        }
    }
}

/// The spillover stores among some ports of a property.
pub open spec fn spills_in(ports: Seq<PortShape>, owner: Seq<char>) -> Seq<SpillModel>
    decreases ports.len(),
{
    if ports.len() == 0 {
        Seq::empty()
    } else {
        match ports.last() {
            PortShape::Spillover { dest, source, guard, value } => spills_in(
                ports.drop_last(),
                owner,
            ).push(SpillModel { dest, source, owner, guard, value }),
            _ => spills_in(ports.drop_last(), owner),
        }
    }
}

/// All direct stores of a list of assignments, in order.
pub open spec fn all_directs(assignments: Seq<AssignmentModel>) -> Seq<DirectModel>
    decreases assignments.len(),
{
    if assignments.len() == 0 {
        Seq::empty()
    } else {
        let a = assignments.last();
        match ports_of(a) {
            Some(ports) => all_directs(assignments.drop_last()) + directs_in(ports, a.property),
            None => all_directs(assignments.drop_last()),
        }
    }
}

/// All spillover stores of a list of assignments, in order.
pub open spec fn all_spills(assignments: Seq<AssignmentModel>) -> Seq<SpillModel>
    decreases assignments.len(),
{
    if assignments.len() == 0 {
        Seq::empty()
    } else {
        let a = assignments.last();
        match ports_of(a) {
            Some(ports) => all_spills(assignments.drop_last()) + spills_in(ports, a.property),
            None => all_spills(assignments.drop_last()),
        }
    }
}

// ---------------------------------------------------------------------------
// Groups
// ---------------------------------------------------------------------------

/// Positions of the stores to one destination property, ascending.
pub open spec fn stores_to(all: Seq<DirectModel>, dest: Seq<char>) -> Seq<int>
    decreases all.len(),
{
    if all.len() == 0 {
        Seq::empty()
    } else if all.last().dest == dest {
        stores_to(all.drop_last(), dest).push(all.len() - 1)
    } else {
        stores_to(all.drop_last(), dest)
    }
}

/// Destination properties in the order in which they first occur.
pub open spec fn dests(all: Seq<DirectModel>) -> Seq<Seq<char>>
    decreases all.len(),
{
    if all.len() == 0 {
        Seq::empty()
    } else {
        let before = dests(all.drop_last());
        if before.contains(all.last().dest) {
            before
        } else {
            before.push(all.last().dest)
        }
    }
}

/// Those of the given positions that store `value`.
pub open spec fn storing(all: Seq<DirectModel>, at: Seq<int>, value: ExprModel) -> Seq<int>
    decreases at.len(),
{
    if at.len() == 0 {
        Seq::empty()
    } else if all[at.last()].value == value {
        storing(all, at.drop_last(), value).push(at.last())
    } else {
        storing(all, at.drop_last(), value)
    }
}

/// The distinct values stored at the given positions, in the order in which they
/// first occur.
pub open spec fn values_at(all: Seq<DirectModel>, at: Seq<int>) -> Seq<ExprModel>
    decreases at.len(),
{
    if at.len() == 0 {
        Seq::empty()
    } else {
        let before = values_at(all, at.drop_last());
        if before.contains(all[at.last()].value) {
            before
        } else {
            before.push(all[at.last()].value)
        }
    }
}

/// Of the given values the one that is stored most often; of several the last.
pub open spec fn most_stored(
    all: Seq<DirectModel>,
    at: Seq<int>,
    values: Seq<ExprModel>,
) -> ExprModel
    decreases values.len(),
{
    if values.len() <= 1 {
        values[0]
    } else {
        let best = most_stored(all, at, values.drop_last());
        if storing(all, at, values.last()).len() >= storing(all, at, best).len() {
            values.last()
        } else {
            best
        }
    }
}

/// The properties at the given positions.
pub open spec fn owners(all: Seq<DirectModel>, at: Seq<int>) -> Set<Seq<char>>
    decreases at.len(),
{
    if at.len() == 0 {
        Set::empty()
    } else {
        owners(all, at.drop_last()).insert(all[at.last()].owner)
    }
}

/// The value that a destination property broadcasts: the one stored most often,
/// if it goes to enough places and at least half of those are different
/// properties.
pub open spec fn broadcast_value(all: Seq<DirectModel>, dest: Seq<char>) -> Option<ExprModel> {
    let at = stores_to(all, dest);
    let value = most_stored(all, at, values_at(all, at));
    let targets = storing(all, at, value);
    if targets.len() >= MIN_BROADCAST_TARGETS && owners(all, targets).len() * 2 >= targets.len() {
        Some(value)
    } else {
        None
    }
}

/// Is the store part of a broadcast?
pub open spec fn is_broadcast(all: Seq<DirectModel>, i: int) -> bool {
    broadcast_value(all, all[i].dest) == Some(all[i].value)
}

/// Is the store part of a broadcast that leads from the store's address back to
/// its property?
pub open spec fn is_written(all: Seq<DirectModel>, i: int) -> bool {
    is_broadcast(all, i) && targets_of(all, all[i].dest, all[i].value)[all[i].addr] == all[i].owner
}

/// Spillover stores with the given destination.
pub open spec fn spills_to(spills: Seq<SpillModel>, dest: Seq<char>) -> Seq<SpillModel>
    decreases spills.len(),
{
    if spills.len() == 0 {
        Seq::empty()
    } else if spills.last().dest == dest {
        spills_to(spills.drop_last(), dest).push(spills.last())
    } else {
        spills_to(spills.drop_last(), dest)
    }
}

/// The value of a [`BroadcastWrite`].
#[verifier::ext_equal]
pub struct WriteModel {
    pub dest: Seq<char>,
    pub value: ExprModel,
    pub targets: Map<i64, Seq<char>>,
    pub spills: Map<i64, (Seq<char>, ExprModel)>,
    pub guard: Option<Seq<char>>,
}

/// Address and property of the stores at the given positions.
pub open spec fn target_pairs(all: Seq<DirectModel>, at: Seq<int>) -> Seq<(i64, Seq<char>)> {
    Seq::new(at.len(), |k: int| (all[at[k]].addr, all[at[k]].owner))
}

/// The properties that a destination property's stores of `value` go to, by
/// address. Of two properties at the same address the later one is kept.
pub open spec fn targets_of(
    all: Seq<DirectModel>,
    dest: Seq<char>,
    value: ExprModel,
) -> Map<i64, Seq<char>> {
    tables::map_of(target_pairs(all, storing(all, stores_to(all, dest), value)))
}

/// Address, property and value of spillover stores.
pub open spec fn spill_pairs(spills: Seq<SpillModel>) -> Seq<(i64, (Seq<char>, ExprModel))> {
    Seq::new(spills.len(), |k: int| (spills[k].source, (spills[k].owner, spills[k].value)))
}

/// The write of one destination property. The guard is that of the first
/// spillover.
pub open spec fn write_of(
    all: Seq<DirectModel>,
    spills: Seq<SpillModel>,
    dest: Seq<char>,
    value: ExprModel,
) -> WriteModel {
    let mine = spills_to(spills, dest);
    WriteModel {
        dest,
        value,
        targets: targets_of(all, dest, value),
        spills: tables::map_of(spill_pairs(mine)),
        guard: if mine.len() > 0 {
            Some(mine[0].guard)
        } else {
            None
        },
    }
}

/// The writes of the given destination properties, in order.
pub open spec fn writes_of(
    all: Seq<DirectModel>,
    spills: Seq<SpillModel>,
    of: Seq<Seq<char>>,
) -> Seq<WriteModel>
    decreases of.len(),
{
    if of.len() == 0 {
        Seq::empty()
    } else {
        let before = writes_of(all, spills, of.drop_last());
        match broadcast_value(all, of.last()) {
            Some(value) => before.push(write_of(all, spills, of.last(), value)),
            None => before,
        }
    }
}

/// The writes of a list of assignments.
pub open spec fn broadcast_writes(assignments: Seq<AssignmentModel>) -> Seq<WriteModel> {
    let all = all_directs(assignments);
    writes_of(all, all_spills(assignments), dests(all))
}

/// Is a property replaced entirely: does it have direct stores, and do writes
/// perform all of them?
pub open spec fn replaced(assignments: Seq<AssignmentModel>, property: Seq<char>) -> bool {
    let all = all_directs(assignments);
    &&& exists|i: int| 0 <= i < all.len() && (#[trigger] all[i]).owner == property
    &&& forall|i: int|
        0 <= i < all.len() && (#[trigger] all[i]).owner == property ==> is_written(all, i)
}

impl BroadcastWrite {
    /// The value of a write.
    pub open spec fn view(&self) -> WriteModel {
        WriteModel {
            dest: self.dest_property@,
            value: self.value_expr.view(),
            targets: self.address_map@.map_values(|s: String| s@),
            spills: self.spillover_map@.map_values(|p: (String, Expr)| (p.0@, p.1.view())),
            guard: match self.spillover_guard {
                Some(g) => Some(g@),
                None => None,
            },
        }
    }
}

/// The values of a list of writes.
pub open spec fn writes_view(v: Seq<BroadcastWrite>) -> Seq<WriteModel> {
    Seq::new(v.len(), |i: int| v[i].view())
}

// ---------------------------------------------------------------------------
// Code
// ---------------------------------------------------------------------------

struct Direct {
    dest: String,
    addr: i64,
    owner: String,
    value: Expr,
}

struct Spill {
    dest: String,
    source: i64,
    owner: String,
    guard: String,
    value: Expr,
}

impl Direct {
    spec fn view(&self) -> DirectModel {
        DirectModel {
            dest: self.dest@,
            addr: self.addr,
            owner: self.owner@,
            value: self.value.view(),
        }
    }
}

impl Spill {
    spec fn view(&self) -> SpillModel {
        SpillModel {
            dest: self.dest@,
            source: self.source,
            owner: self.owner@,
            guard: self.guard@,
            value: self.value.view(),
        }
    }
}

spec fn directs_view(v: Seq<Direct>) -> Seq<DirectModel> {
    Seq::new(v.len(), |i: int| v[i].view())
}

spec fn spills_view(v: Seq<Spill>) -> Seq<SpillModel> {
    Seq::new(v.len(), |i: int| v[i].view())
}

spec fn ints(v: Seq<usize>) -> Seq<int> {
    Seq::new(v.len(), |i: int| v[i] as int)
}

fn literal_test(t: &StyleTest) -> (r: Option<(&String, i64)>)
    ensures
        match r {
            Some((p, v)) => literal_of(t.view()) == Some((p@, v)),
            None => literal_of(t.view()) is None,
        },
{
    match t {
        StyleTest::Single { property, value: Expr::Literal(v) } => Some((property, v.to_i64())),
        _ => None,
    }
}

fn is_simple_keep(fallback: &Expr, property: &String) -> (r: bool)
    ensures
        r == simple_keep(fallback.view(), property@),
{
    match fallback {
        Expr::Var { name, fallback: _ } => names::keeps_property(name.as_str(), property.as_str()),
        _ => false,
    }
}

/// Appends the stores of one assignment; says whether it consists of stores.
fn extract_broadcast_ports(
    a: &Assignment,
    directs: &mut Vec<Direct>,
    spills: &mut Vec<Spill>,
) -> (r: bool)
    ensures
        r == ports_of(a.view()) is Some,
        directs_view(final(directs)@) == (match ports_of(a.view()) {
            Some(ports) => directs_view(old(directs)@) + directs_in(ports, a.property@),
            None => directs_view(old(directs)@),
        }),
        spills_view(final(spills)@) == (match ports_of(a.view()) {
            Some(ports) => spills_view(old(spills)@) + spills_in(ports, a.property@),
            None => spills_view(old(spills)@),
        }),
{
    if text::begins(a.property.as_str(), "--__") {
        return false;
    }
    let (branches, fallback) = match &a.value {
        Expr::StyleCondition { branches, fallback } => (branches, fallback),
        _ => {
            return false;
        },
    };
    let ghost model = types::branches_view(branches@);
    assert(a.value.view() == ExprModel::Cond(model, Box::new(fallback.view())));
    if !is_simple_keep(fallback, &a.property) || branches.len() == 0 {
        return false;
    }
    let mut k: usize = 0;
    while k < branches.len()
        invariant
            k <= branches@.len(),
            model == types::branches_view(branches@),
            a.value.view() == ExprModel::Cond(model, Box::new(fallback.view())),
            directs@ == old(directs)@,
            spills@ == old(spills)@,
            forall|j: int| 0 <= j < k ==> port_shape(#[trigger] model[j]) is Some,
        decreases branches@.len() - k,
    {
        assert(model[k as int] == branches@[k as int].view());
        if !is_port(&branches[k]) {
            return false;
        }
        k += 1;
    }
    let ghost ports = Seq::new(model.len(), |i: int| port_shape(model[i])->0);
    let ghost d0 = directs_view(directs@);
    let ghost s0 = spills_view(spills@);
    let mut i: usize = 0;
    proof {
        assert(ports.subrange(0, 0) =~= Seq::<PortShape>::empty());
        assert(d0 + directs_in(ports.subrange(0, 0), a.property@) =~= d0);
        assert(s0 + spills_in(ports.subrange(0, 0), a.property@) =~= s0);
    }
    while i < branches.len()
        invariant
            i <= branches@.len(),
            model == types::branches_view(branches@),
            ports == Seq::new(model.len(), |i: int| port_shape(model[i])->0),
            forall|j: int| 0 <= j < model.len() ==> port_shape(#[trigger] model[j]) is Some,
            directs_view(directs@) == d0 + directs_in(ports.subrange(0, i as int), a.property@),
            spills_view(spills@) == s0 + spills_in(ports.subrange(0, i as int), a.property@),
        decreases branches@.len() - i,
    {
        let b: &StyleBranch = &branches[i];
        assert(model[i as int] == b.view());
        assert(port_shape(model[i as int]) is Some);
        let ghost now = ports.subrange(0, i as int);
        let ghost next = ports.subrange(0, i + 1);
        assert(next.drop_last() =~= now);
        assert(next.last() == port_shape(b.view())->0);
        let ghost d1 = directs_view(directs@);
        let ghost s1 = spills_view(spills@);
        match &b.condition {
            StyleTest::Single { property, value: Expr::Literal(v) } => {
                let item = Direct {
                    dest: property.clone(),
                    addr: v.to_i64(),
                    owner: a.property.clone(),
                    value: b.body().clone(),
                };
                directs.push(item);
                proof {
                    assert(directs_view(directs@) =~= d1.push(item.view()));
                    assert(directs_view(directs@) =~= d0 + directs_in(next, a.property@));
                }
            },
            StyleTest::And(tests) => {
                assert(types::tests_view(tests@)[0] == tests@[0].view());
                assert(types::tests_view(tests@)[1] == tests@[1].view());
                if let (Some((p, v)), Some((q, w))) = (
                    literal_test(&tests[0]),
                    literal_test(&tests[1]),
                ) {
                    let item = if v == 1 {
                        Spill {
                            dest: q.clone(),
                            source: w,
                            owner: a.property.clone(),
                            guard: p.clone(),
                            value: b.body().clone(),
                        }
                    } else {
                        Spill {
                            dest: p.clone(),
                            source: v,
                            owner: a.property.clone(),
                            guard: q.clone(),
                            value: b.body().clone(),
                        }
                    };
                    spills.push(item);
                    proof {
                        assert(spills_view(spills@) =~= s1.push(item.view()));
                        assert(spills_view(spills@) =~= s0 + spills_in(next, a.property@));
                    }
                }
            },
            _ => {},
        }
        i += 1;
    }
    assert(ports.subrange(0, i as int) =~= ports);
    true
}

fn is_port(b: &StyleBranch) -> (r: bool)
    ensures
        r == port_shape(b.view()) is Some,
{
    match &b.condition {
        StyleTest::Single { property: _, value: _ } => literal_test(&b.condition).is_some(),
        StyleTest::And(tests) => {
            if tests.len() != 2 {
                return false;
            }
            assert(types::tests_view(tests@)[0] == tests@[0].view());
            assert(types::tests_view(tests@)[1] == tests@[1].view());
            match (literal_test(&tests[0]), literal_test(&tests[1])) {
                (Some((_p, v)), Some((_q, w))) => v == 1 || w == 1,
                _ => false,
            }
        },
        _ => false,
    }
}

/// Positions of the stores to one destination property.
struct Group {
    dest: String,
    at: Vec<usize>,
}

/// Every group holds the stores to its destination property.
spec fn groups_hold(groups: Seq<Group>, all: Seq<DirectModel>) -> bool {
    &&& groups.len() == dests(all).len()
    &&& forall|g: int|
        0 <= g < groups.len() ==> (#[trigger] groups[g]).dest@ == dests(all)[g] && ints(
            groups[g].at@,
        ) == stores_to(all, dests(all)[g])
}

/// The index finds the group of every destination property.
spec fn index_holds(index: Map<Seq<char>, usize>, all: Seq<DirectModel>) -> bool {
    &&& forall|g: int|
        0 <= g < dests(all).len() ==> index.contains_key(#[trigger] dests(all)[g])
            && index[dests(all)[g]] == g
    &&& forall|d: Seq<char>| #[trigger]
        index.contains_key(d) ==> dests(all).contains(d)
}

proof fn lemma_stores_to(all: Seq<DirectModel>, dest: Seq<char>)
    ensures
        forall|k: int|
            0 <= k < stores_to(all, dest).len() ==> 0 <= #[trigger] stores_to(all, dest)[k]
                < all.len() && all[stores_to(all, dest)[k]].dest == dest,
        !dests(all).contains(dest) ==> stores_to(all, dest).len() == 0,
    decreases all.len(),
{
    if all.len() > 0 {
        let rest = all.drop_last();
        lemma_stores_to(rest, dest);
        assert forall|k: int| 0 <= k < stores_to(all, dest).len() implies 0 <= #[trigger] stores_to(
            all,
            dest,
        )[k] < all.len() && all[stores_to(all, dest)[k]].dest == dest by {
            if k < stores_to(rest, dest).len() {
                assert(stores_to(rest, dest)[k] == stores_to(all, dest)[k]);
                assert(rest[stores_to(rest, dest)[k]].dest == dest);
            }
        }
        if !dests(all).contains(dest) {
            let before = dests(rest);
            if before.contains(dest) {
                let j = choose|j: int| 0 <= j < before.len() && before[j] == dest;
                assert(dests(all)[j] == dest);
            }
            if all.last().dest == dest && !before.contains(dest) {
                assert(dests(all)[before.len() as int] == dest);
            }
        }
    }
}

/// Every destination is listed once.
pub proof fn lemma_dests(all: Seq<DirectModel>)
    ensures
        dests(all).no_duplicates(),
        forall|i: int| 0 <= i < all.len() ==> dests(all).contains((#[trigger] all[i]).dest),
    decreases all.len(),
{
    if all.len() > 0 {
        let rest = all.drop_last();
        lemma_dests(rest);
        let before = dests(rest);
        assert forall|i: int| 0 <= i < all.len() implies dests(all).contains(
            (#[trigger] all[i]).dest,
        ) by {
            if i < rest.len() {
                assert(rest[i] == all[i]);
                assert(before.contains(rest[i].dest));
                let j = choose|j: int| 0 <= j < before.len() && before[j] == rest[i].dest;
                assert(dests(all)[j] == all[i].dest);
            } else if !before.contains(all[i].dest) {
                assert(dests(all)[before.len() as int] == all[i].dest);
            }
        }
    }
}

fn group_by_dest(directs: &Vec<Direct>) -> (r: (Vec<Group>, StringHashMap<usize>))
    ensures
        groups_hold(r.0@, directs_view(directs@)),
        index_holds(r.1@, directs_view(directs@)),
{
    let ghost all = directs_view(directs@);
    let mut groups: Vec<Group> = Vec::new();
    let mut index: StringHashMap<usize> = StringHashMap::new();
    let mut i: usize = 0;
    assert(all.subrange(0, 0) =~= Seq::<DirectModel>::empty());
    while i < directs.len()
        invariant
            i <= directs@.len(),
            all == directs_view(directs@),
            groups_hold(groups@, all.subrange(0, i as int)),
            index_holds(index@, all.subrange(0, i as int)),
        decreases directs@.len() - i,
    {
        let ghost now = all.subrange(0, i as int);
        let ghost next = all.subrange(0, i + 1);
        let ghost before = groups@;
        let dest: &String = &directs[i].dest;
        proof {
            assert(next.drop_last() =~= now);
            assert(next.last() == directs@[i as int].view());
            lemma_dests(now);
            lemma_dests(next);
            lemma_stores_to(now, dest@);
        }
        let known: Option<usize> = match index.get(dest.as_str()) {
            Some(g) => Some(*g),
            None => None,
        };
        match known {
            Some(g) => {
                proof {
                    assert(dests(now).contains(dest@));
                    let k = choose|k: int| 0 <= k < dests(now).len() && dests(now)[k] == dest@;
                    assert(index@[dests(now)[k]] == k);
                    assert(k == g);
                    assert(before[k].dest@ == dest@);
                }
                groups[g].at.push(i);
                proof {
                    assert forall|k: int| 0 <= k < groups@.len() implies (
                    #[trigger] groups@[k]).dest@ == dests(next)[k] && ints(groups@[k].at@)
                        == stores_to(next, dests(next)[k]) by {
                        assert(before[k].dest@ == dests(now)[k]);
                        if k == g {
                            assert(ints(groups@[k].at@) =~= ints(before[k].at@).push(i as int));
                        } else {
                            assert(dests(now)[k] != dests(now)[g as int]);
                        }
                    }
                    assert forall|k: int| 0 <= k < dests(next).len() implies index@.contains_key(
                        #[trigger] dests(next)[k],
                    ) && index@[dests(next)[k]] == k by {
                        assert(dests(next)[k] == dests(now)[k]);
                    }
                }
            },
            None => {
                proof {
                    if dests(now).contains(dest@) {
                        let k = choose|k: int| 0 <= k < dests(now).len() && dests(now)[k] == dest@;
                        assert(index@.contains_key(dests(now)[k]));
                    }
                }
                let mut at: Vec<usize> = Vec::new();
                at.push(i);
                let n: usize = groups.len();
                let ghost was = index@;
                groups.push(Group { dest: dest.clone(), at });
                index.insert(dest.clone(), n);
                proof {
                    assert forall|k: int| 0 <= k < groups@.len() implies (
                    #[trigger] groups@[k]).dest@ == dests(next)[k] && ints(groups@[k].at@)
                        == stores_to(next, dests(next)[k]) by {
                        if k < n {
                            assert(before[k].dest@ == dests(now)[k]);
                            assert(dests(next)[k] == dests(now)[k]);
                            assert(dests(now)[k] != dest@);
                        } else {
                            assert(ints(at@) =~= stores_to(now, dest@).push(i as int));
                        }
                    }
                    assert forall|k: int| 0 <= k < dests(next).len() implies index@.contains_key(
                        #[trigger] dests(next)[k],
                    ) && index@[dests(next)[k]] == k by {
                        if k < n {
                            assert(dests(next)[k] == dests(now)[k]);
                            assert(was.contains_key(dests(now)[k]));
                            assert(dests(now)[k] != dest@);
                        }
                    }
                    assert forall|d: Seq<char>| #[trigger] index@.contains_key(d) implies dests(
                        next,
                    ).contains(d) by {
                        if d == dest@ {
                            assert(dests(next)[n as int] == d);
                        } else {
                            assert(was.contains_key(d));
                            let k = choose|k: int| 0 <= k < dests(now).len() && dests(now)[k] == d;
                            assert(dests(next)[k] == d);
                        }
                    }
                }
            },
        }
        i += 1;
    }
    assert(all.subrange(0, i as int) =~= all);
    (groups, index)
}

/// Positions that store one value; `first` is one of them.
struct ValueGroup {
    first: usize,
    at: Vec<usize>,
}

spec fn value_groups_hold(
    groups: Seq<ValueGroup>,
    all: Seq<DirectModel>,
    at: Seq<int>,
) -> bool {
    &&& groups.len() == values_at(all, at).len()
    &&& forall|g: int|
        0 <= g < groups.len() ==> (#[trigger] groups[g]).first < all.len()
            && all[groups[g].first as int].value == values_at(all, at)[g] && ints(groups[g].at@)
            == storing(all, at, values_at(all, at)[g]) && forall|k: int|
            0 <= k < groups[g].at@.len() ==> #[trigger] groups[g].at@[k] < all.len()
}

proof fn lemma_values(all: Seq<DirectModel>, at: Seq<int>, value: ExprModel)
    ensures
        values_at(all, at).no_duplicates(),
        !values_at(all, at).contains(value) ==> storing(all, at, value).len() == 0,
    decreases at.len(),
{
    if at.len() > 0 {
        let rest = at.drop_last();
        lemma_values(all, rest, value);
        let before = values_at(all, rest);
        if !values_at(all, at).contains(value) {
            if before.contains(value) {
                let j = choose|j: int| 0 <= j < before.len() && before[j] == value;
                assert(values_at(all, at)[j] == value);
            }
            if all[at.last()].value == value && !before.contains(value) {
                assert(values_at(all, at)[before.len() as int] == value);
            }
        }
    }
}

fn group_by_value(directs: &Vec<Direct>, at: &Vec<usize>) -> (r: Vec<ValueGroup>)
    requires
        forall|k: int| 0 <= k < at@.len() ==> #[trigger] at@[k] < directs@.len(),
    ensures
        value_groups_hold(r@, directs_view(directs@), ints(at@)),
{
    let ghost all = directs_view(directs@);
    let ghost places = ints(at@);
    let mut groups: Vec<ValueGroup> = Vec::new();
    let mut i: usize = 0;
    assert(places.subrange(0, 0) =~= Seq::<int>::empty());
    while i < at.len()
        invariant
            i <= at@.len(),
            all == directs_view(directs@),
            places == ints(at@),
            forall|k: int| 0 <= k < at@.len() ==> #[trigger] at@[k] < directs@.len(),
            value_groups_hold(groups@, all, places.subrange(0, i as int)),
        decreases at@.len() - i,
    {
        let ghost now = places.subrange(0, i as int);
        let ghost next = places.subrange(0, i + 1);
        let here: usize = at[i];
        let value: &Expr = &directs[here].value;
        let ghost before = groups@;
        proof {
            assert(next.drop_last() =~= now);
            assert(next.last() == here);
            assert(all[here as int].value == value.view());
            lemma_values(all, now, value.view());
            lemma_values(all, next, value.view());
        }
        let mut g: usize = 0;
        while g < groups.len() && !types::same_expr(&directs[groups[g].first].value, value)
            invariant
                g <= groups@.len(),
                all == directs_view(directs@),
                value_groups_hold(groups@, all, now),
                forall|k: int| 0 <= k < g ==> #[trigger] values_at(all, now)[k] != value.view(),
            decreases groups@.len() - g,
        {
            assert(all[groups@[g as int].first as int].value == values_at(all, now)[g as int]);
            g += 1;
        }
        if g < groups.len() {
            assert(all[before[g as int].first as int].value == values_at(all, now)[g as int]);
            assert(values_at(all, now)[g as int] == value.view());
            assert(values_at(all, now).contains(value.view()));
            groups[g].at.push(here);
            proof {
                assert forall|k: int| 0 <= k < groups@.len() implies (
                #[trigger] groups@[k]).first < all.len() && all[groups@[k].first as int].value
                    == values_at(all, next)[k] && ints(groups@[k].at@) == storing(
                    all,
                    next,
                    values_at(all, next)[k],
                ) && forall|j: int|
                    0 <= j < groups@[k].at@.len() ==> #[trigger] groups@[k].at@[j]
                        < all.len() by {
                    assert(before[k].first < all.len());
                    if k == g {
                        assert(ints(groups@[k].at@) =~= ints(before[k].at@).push(here as int));
                    } else {
                        assert(values_at(all, now)[k] != values_at(all, now)[g as int]);
                    }
                }
            }
        } else {
            proof {
                if values_at(all, now).contains(value.view()) {
                    let k = choose|k: int|
                        0 <= k < values_at(all, now).len() && values_at(all, now)[k]
                            == value.view();
                    assert(values_at(all, now)[k] != value.view());
                }
            }
            let mut places_here: Vec<usize> = Vec::new();
            places_here.push(here);
            groups.push(ValueGroup { first: here, at: places_here });
            proof {
                let n = before.len() as int;
                assert forall|k: int| 0 <= k < groups@.len() implies (
                #[trigger] groups@[k]).first < all.len() && all[groups@[k].first as int].value
                    == values_at(all, next)[k] && ints(groups@[k].at@) == storing(
                    all,
                    next,
                    values_at(all, next)[k],
                ) && forall|j: int|
                    0 <= j < groups@[k].at@.len() ==> #[trigger] groups@[k].at@[j]
                        < all.len() by {
                    if k < n {
                        assert(before[k].first < all.len());
                        assert(values_at(all, next)[k] == values_at(all, now)[k]);
                        assert(values_at(all, now)[k] != value.view());
                    } else {
                        assert(ints(places_here@) =~= storing(all, now, value.view()).push(
                            here as int,
                        ));
                    }
                }
            }
        }
        i += 1;
    }
    assert(places.subrange(0, i as int) =~= places);
    groups
}

fn count_owners(directs: &Vec<Direct>, at: &Vec<usize>) -> (r: usize)
    requires
        forall|k: int| 0 <= k < at@.len() ==> #[trigger] at@[k] < directs@.len(),
    ensures
        r == owners(directs_view(directs@), ints(at@)).len(),
{
    let ghost all = directs_view(directs@);
    let ghost places = ints(at@);
    let mut seen: StringHashSet = StringHashSet::new();
    let mut i: usize = 0;
    assert(places.subrange(0, 0) =~= Seq::<int>::empty());
    while i < at.len()
        invariant
            i <= at@.len(),
            all == directs_view(directs@),
            places == ints(at@),
            forall|k: int| 0 <= k < at@.len() ==> #[trigger] at@[k] < directs@.len(),
            seen@ == owners(all, places.subrange(0, i as int)),
        decreases at@.len() - i,
    {
        assert(places.subrange(0, i + 1).drop_last() =~= places.subrange(0, i as int));
        let here: usize = at[i];
        assert(all[here as int] == directs@[here as int].view());
        seen.insert(directs[here].owner.clone());
        i += 1;
    }
    assert(places.subrange(0, i as int) =~= places);
    seen.len()
}

/// The value that a group broadcasts: a position that stores it, and all
/// positions of the group that do.
fn majority(directs: &Vec<Direct>, group: &Group) -> (r: Option<ValueGroup>)
    requires
        ints(group.at@) == stores_to(directs_view(directs@), group.dest@),
    ensures
        match r {
            Some(v) => v.first < directs@.len() && broadcast_value(
                directs_view(directs@),
                group.dest@,
            ) == Some(directs@[v.first as int].value.view()) && ints(v.at@) == storing(
                directs_view(directs@),
                stores_to(directs_view(directs@), group.dest@),
                directs@[v.first as int].value.view(),
            ) && forall|k: int| 0 <= k < v.at@.len() ==> #[trigger] v.at@[k] < directs@.len(),
            None => broadcast_value(directs_view(directs@), group.dest@) is None,
        },
{
    let ghost all = directs_view(directs@);
    let ghost at = stores_to(all, group.dest@);
    proof {
        lemma_stores_to(all, group.dest@);
        assert forall|k: int| 0 <= k < group.at@.len() implies #[trigger] group.at@[k]
            < directs@.len() by {
            assert(ints(group.at@)[k] == at[k]);
        }
    }
    let mut groups: Vec<ValueGroup> = group_by_value(directs, &group.at);
    if groups.len() == 0 {
        proof {
            assert(at.len() == 0) by {
                if at.len() > 0 {
                    lemma_values_nonempty(all, at);
                }
            }
        }
        return None;
    }
    let ghost values = values_at(all, at);
    let ghost built = groups@;
    let mut best: usize = 0;
    let mut g: usize = 1;
    assert(values.subrange(0, 1).len() == 1);
    while g < groups.len()
        invariant
            1 <= g <= groups@.len(),
            best < g,
            all == directs_view(directs@),
            value_groups_hold(groups@, all, at),
            values == values_at(all, at),
            values[best as int] == most_stored(all, at, values.subrange(0, g as int)),
        decreases groups@.len() - g,
    {
        proof {
            let next = values.subrange(0, g + 1);
            assert(next.drop_last() =~= values.subrange(0, g as int));
            assert(next.last() == values[g as int]);
            assert(ints(groups@[g as int].at@) == storing(all, at, values[g as int]));
            assert(ints(groups@[best as int].at@) == storing(all, at, values[best as int]));
        }
        if groups[g].at.len() >= groups[best].at.len() {
            best = g;
        }
        g += 1;
    }
    assert(values.subrange(0, g as int) =~= values);
    assert(ints(groups@[best as int].at@) == storing(all, at, values[best as int]));
    let chosen: ValueGroup = groups.swap_remove(best);
    assert(chosen == built[best as int]);
    if chosen.at.len() < MIN_BROADCAST_TARGETS {
        return None;
    }
    let unique: usize = count_owners(directs, &chosen.at);
    if (unique as u128) * 2 < chosen.at.len() as u128 {
        return None;
    }
    Some(chosen)
}

proof fn lemma_values_nonempty(all: Seq<DirectModel>, at: Seq<int>)
    requires
        at.len() > 0,
    ensures
        values_at(all, at).len() > 0,
{
    if values_at(all, at.drop_last()).contains(all[at.last()].value) {
        let k = choose|k: int|
            0 <= k < values_at(all, at.drop_last()).len() && values_at(all, at.drop_last())[k]
                == all[at.last()].value;
    }
}

fn build_targets(directs: &Vec<Direct>, at: &Vec<usize>) -> (r: HashMap<i64, String>)
    requires
        forall|k: int| 0 <= k < at@.len() ==> #[trigger] at@[k] < directs@.len(),
    ensures
        r@.map_values(|s: String| s@) == tables::map_of(
            target_pairs(directs_view(directs@), ints(at@)),
        ),
{
    let ghost all = directs_view(directs@);
    let ghost pairs = target_pairs(all, ints(at@));
    let mut map: HashMap<i64, String> = HashMap::new();
    let mut i: usize = 0;
    assert(pairs.subrange(0, 0) =~= Seq::<(i64, Seq<char>)>::empty());
    assert(map@.map_values(|s: String| s@) =~= Map::<i64, Seq<char>>::empty());
    while i < at.len()
        invariant
            i <= at@.len(),
            all == directs_view(directs@),
            pairs == target_pairs(all, ints(at@)),
            forall|k: int| 0 <= k < at@.len() ==> #[trigger] at@[k] < directs@.len(),
            map@.map_values(|s: String| s@) == tables::map_of(pairs.subrange(0, i as int)),
        decreases at@.len() - i,
    {
        let here: usize = at[i];
        let ghost before = map@;
        let owner: String = directs[here].owner.clone();
        map.insert(directs[here].addr, owner);
        proof {
            assert(all[here as int] == directs@[here as int].view());
            assert(pairs.subrange(0, i + 1).drop_last() =~= pairs.subrange(0, i as int));
            assert(pairs[i as int] == (directs@[here as int].addr, owner@));
            assert(map@.map_values(|s: String| s@) =~= before.map_values(|s: String| s@).insert(
                directs@[here as int].addr,
                owner@,
            ));
        }
        i += 1;
    }
    assert(pairs.subrange(0, i as int) =~= pairs);
    map
}

/// The spillover table of one destination property, and its guard.
fn build_spills(spills: &Vec<Spill>, dest: &String) -> (r: (
    HashMap<i64, (String, Expr)>,
    Option<String>,
))
    ensures
        r.0@.map_values(|p: (String, Expr)| (p.0@, p.1.view())) == tables::map_of(
            spill_pairs(spills_to(spills_view(spills@), dest@)),
        ),
        ({
            let mine = spills_to(spills_view(spills@), dest@);
            match r.1 {
                Some(g) => mine.len() > 0 && mine[0].guard == g@,
                None => mine.len() == 0,
            }
        }),
{
    let ghost all = spills_view(spills@);
    let mut map: HashMap<i64, (String, Expr)> = HashMap::new();
    let mut guard: Option<String> = None;
    let mut i: usize = 0;
    assert(all.subrange(0, 0) =~= Seq::<SpillModel>::empty());
    assert(spill_pairs(Seq::<SpillModel>::empty()) =~= Seq::<
        (i64, (Seq<char>, ExprModel)),
    >::empty());
    assert(map@.map_values(|p: (String, Expr)| (p.0@, p.1.view())) =~= Map::<
        i64,
        (Seq<char>, ExprModel),
    >::empty());
    while i < spills.len()
        invariant
            i <= spills@.len(),
            all == spills_view(spills@),
            map@.map_values(|p: (String, Expr)| (p.0@, p.1.view())) == tables::map_of(
                spill_pairs(spills_to(all.subrange(0, i as int), dest@)),
            ),
            match guard {
                Some(g) => spills_to(all.subrange(0, i as int), dest@).len() > 0 && spills_to(
                    all.subrange(0, i as int),
                    dest@,
                )[0].guard == g@,
                None => spills_to(all.subrange(0, i as int), dest@).len() == 0,
            },
        decreases spills@.len() - i,
    {
        let ghost now = spills_to(all.subrange(0, i as int), dest@);
        let ghost next = spills_to(all.subrange(0, i + 1), dest@);
        assert(all.subrange(0, i + 1).drop_last() =~= all.subrange(0, i as int));
        assert(all[i as int] == spills@[i as int].view());
        if spills[i].dest == *dest {
            let ghost before = map@;
            let owner: String = spills[i].owner.clone();
            let value: Expr = spills[i].value.clone();
            map.insert(spills[i].source, (owner, value));
            if guard.is_none() {
                guard = Some(spills[i].guard.clone());
            }
            proof {
                assert(next == now.push(all[i as int]));
                assert(spill_pairs(next).drop_last() =~= spill_pairs(now));
                assert(map@.map_values(|p: (String, Expr)| (p.0@, p.1.view()))
                    =~= before.map_values(|p: (String, Expr)| (p.0@, p.1.view())).insert(
                    spills@[i as int].source,
                    (owner@, value.view()),
                ));
            }
        }
        i += 1;
    }
    assert(all.subrange(0, i as int) =~= all);
    (map, guard)
}

/// Do the numbered writes belong to the destination properties?
spec fn numbers_hold(
    numbers: Seq<Option<usize>>,
    writes: Seq<BroadcastWrite>,
    all: Seq<DirectModel>,
) -> bool {
    forall|g: int|
        0 <= g < numbers.len() ==> match #[trigger] numbers[g] {
            Some(n) => n < writes.len() && broadcast_value(all, dests(all)[g]) == Some(
                writes[n as int].value_expr.view(),
            ) && writes[n as int].view().targets == targets_of(
                all,
                dests(all)[g],
                writes[n as int].value_expr.view(),
            ),
            None => broadcast_value(all, dests(all)[g]) is None,
        }
}

/// Which of the stores the writes perform.
fn mark_written(
    directs: &Vec<Direct>,
    index: &StringHashMap<usize>,
    numbers: &Vec<Option<usize>>,
    writes: &Vec<BroadcastWrite>,
) -> (r: Vec<bool>)
    requires
        index_holds(index@, directs_view(directs@)),
        numbers@.len() == dests(directs_view(directs@)).len(),
        numbers_hold(numbers@, writes@, directs_view(directs@)),
    ensures
        r@.len() == directs@.len(),
        forall|i: int|
            0 <= i < r@.len() ==> #[trigger] r@[i] == is_written(directs_view(directs@), i),
{
    let ghost all = directs_view(directs@);
    let mut marks: Vec<bool> = Vec::new();
    let mut i: usize = 0;
    proof {
        lemma_dests(all);
    }
    while i < directs.len()
        invariant
            i <= directs@.len(),
            all == directs_view(directs@),
            index_holds(index@, all),
            numbers@.len() == dests(all).len(),
            forall|k: int| 0 <= k < all.len() ==> dests(all).contains((#[trigger] all[k]).dest),
            numbers_hold(numbers@, writes@, all),
            marks@.len() == i,
            forall|k: int| 0 <= k < i ==> #[trigger] marks@[k] == is_written(all, k),
        decreases directs@.len() - i,
    {
        proof {
            assert(all[i as int] == directs@[i as int].view());
            let d = all[i as int].dest;
            assert(dests(all).contains(d));
            let g = choose|g: int| 0 <= g < dests(all).len() && dests(all)[g] == d;
            assert(index@.contains_key(dests(all)[g]));
            assert(index@[d] == g);
            lemma_target_known(all, i as int);
        }
        let mark: bool = match index.get(directs[i].dest.as_str()) {
            Some(g) => match numbers[*g] {
                Some(n) => types::same_expr(&directs[i].value, &writes[n].value_expr)
                    && leads_to(&writes[n], directs[i].addr, &directs[i].owner),
                None => false,
            },
            None => false,
        };
        marks.push(mark);
        i += 1;
    }
    marks
}

/// Does a write lead from an address to the given property?
fn leads_to(w: &BroadcastWrite, addr: i64, owner: &String) -> (r: bool)
    ensures
        r == (w.view().targets.contains_key(addr) && w.view().targets[addr] == owner@),
{
    match w.address_map.get(&addr) {
        Some(name) => *name == *owner,
        None => false,
    }
}

/// The properties whose direct stores are all marked.
fn collect_absorbed(directs: &Vec<Direct>, marks: &Vec<bool>) -> (r: StringHashSet)
    requires
        marks@.len() == directs@.len(),
    ensures
        forall|p: Seq<char>| #[trigger]
            r@.contains(p) <==> {
                &&& exists|i: int| 0 <= i < directs@.len() && (#[trigger] directs@[i]).owner@ == p
                &&& forall|i: int|
                    0 <= i < directs@.len() && (#[trigger] directs@[i]).owner@ == p ==> marks@[i]
            },
{
    let mut losers: StringHashSet = StringHashSet::new();
    let mut i: usize = 0;
    while i < directs.len()
        invariant
            i <= directs@.len() == marks@.len(),
            forall|p: Seq<char>| #[trigger]
                losers@.contains(p) <==> exists|k: int|
                    0 <= k < i && (#[trigger] directs@[k]).owner@ == p && !marks@[k],
        decreases directs@.len() - i,
    {
        let ghost before = losers@;
        if !marks[i] {
            losers.insert(directs[i].owner.clone());
        }
        proof {
            assert forall|p: Seq<char>| #[trigger] losers@.contains(p) <==> exists|k: int|
                0 <= k < i + 1 && (#[trigger] directs@[k]).owner@ == p && !marks@[k] by {
                if before.contains(p) {
                    let k = choose|k: int|
                        0 <= k < i && (#[trigger] directs@[k]).owner@ == p && !marks@[k];
                    assert(directs@[k].owner@ == p);
                }
                if losers@.contains(p) && !before.contains(p) {
                    assert(directs@[i as int].owner@ == p);
                }
            }
        }
        i += 1;
    }
    let mut absorbed: StringHashSet = StringHashSet::new();
    let mut j: usize = 0;
    while j < directs.len()
        invariant
            j <= directs@.len() == marks@.len(),
            forall|p: Seq<char>| #[trigger]
                losers@.contains(p) <==> exists|k: int|
                    0 <= k < directs@.len() && (#[trigger] directs@[k]).owner@ == p && !marks@[k],
            forall|p: Seq<char>| #[trigger]
                absorbed@.contains(p) <==> !losers@.contains(p) && exists|k: int|
                    0 <= k < j && (#[trigger] directs@[k]).owner@ == p,
        decreases directs@.len() - j,
    {
        let ghost before = absorbed@;
        if !losers.contains(directs[j].owner.as_str()) {
            absorbed.insert(directs[j].owner.clone());
        }
        proof {
            assert forall|p: Seq<char>| #[trigger]
                absorbed@.contains(p) <==> !losers@.contains(p) && exists|k: int|
                    0 <= k < j + 1 && (#[trigger] directs@[k]).owner@ == p by {
                if before.contains(p) {
                    let k = choose|k: int| 0 <= k < j && (#[trigger] directs@[k]).owner@ == p;
                    assert(directs@[k].owner@ == p);
                }
                if absorbed@.contains(p) && !before.contains(p) {
                    assert(directs@[j as int].owner@ == p);
                }
            }
        }
        j += 1;
    }
    proof {
        assert forall|p: Seq<char>| #[trigger] absorbed@.contains(p) <==> {
            &&& exists|i: int| 0 <= i < directs@.len() && (#[trigger] directs@[i]).owner@ == p
            &&& forall|i: int|
                0 <= i < directs@.len() && (#[trigger] directs@[i]).owner@ == p ==> marks@[i]
        } by {
            if absorbed@.contains(p) {
                assert forall|i: int|
                    0 <= i < directs@.len() && (
                    #[trigger] directs@[i]).owner@ == p implies marks@[i] by {
                    assert(!losers@.contains(p));
                }
            }
        }
    }
    absorbed
}

/// Recognises broadcast writes. A destination property contributes a write if
/// one value goes to enough places and those are mostly different properties; a
/// property is absorbed if such writes perform all its direct stores.
pub fn recognise_broadcast(assignments: &[Assignment]) -> (r: BroadcastResult)
    ensures
        writes_view(r.writes@) == broadcast_writes(types::assignments_view(assignments@)),
        forall|p: Seq<char>| #[trigger]
            r.absorbed_properties@.contains(p) <==> replaced(
                types::assignments_view(assignments@),
                p,
            ),
{
    let ghost input = types::assignments_view(assignments@);
    let mut directs: Vec<Direct> = Vec::new();
    let mut spills: Vec<Spill> = Vec::new();
    let mut i: usize = 0;
    assert(input.subrange(0, 0) =~= Seq::<AssignmentModel>::empty());
    assert(directs_view(directs@) =~= Seq::<DirectModel>::empty());
    assert(spills_view(spills@) =~= Seq::<SpillModel>::empty());
    while i < assignments.len()
        invariant
            i <= assignments@.len(),
            input == types::assignments_view(assignments@),
            directs_view(directs@) == all_directs(input.subrange(0, i as int)),
            spills_view(spills@) == all_spills(input.subrange(0, i as int)),
        decreases assignments@.len() - i,
    {
        proof {
            let a = assignments@[i as int].view();
            assert(input[i as int] == a);
            assert(input.subrange(0, i + 1).drop_last() =~= input.subrange(0, i as int));
            assert(input.subrange(0, i + 1).last() == a);
        }
        extract_broadcast_ports(&assignments[i], &mut directs, &mut spills);
        i += 1;
    }
    assert(input.subrange(0, i as int) =~= input);
    let ghost all = directs_view(directs@);
    let (groups, index) = group_by_dest(&directs);
    let mut writes: Vec<BroadcastWrite> = Vec::new();
    let mut numbers: Vec<Option<usize>> = Vec::new();
    let mut g: usize = 0;
    assert(dests(all).subrange(0, 0) =~= Seq::<Seq<char>>::empty());
    assert(writes_view(writes@) =~= Seq::<WriteModel>::empty());
    while g < groups.len()
        invariant
            g <= groups@.len(),
            all == directs_view(directs@),
            all == all_directs(input),
            spills_view(spills@) == all_spills(input),
            groups_hold(groups@, all),
            numbers@.len() == g,
            numbers_hold(numbers@, writes@, all),
            writes_view(writes@) == writes_of(
                all,
                all_spills(input),
                dests(all).subrange(0, g as int),
            ),
        decreases groups@.len() - g,
    {
        let group: &Group = &groups[g];
        let ghost before = writes_view(writes@);
        proof {
            assert(group.dest@ == dests(all)[g as int]);
            assert(dests(all).subrange(0, g + 1).drop_last() =~= dests(all).subrange(0, g as int));
        }
        match majority(&directs, group) {
            Some(v) => {
                let (spillover_map, spillover_guard) = build_spills(&spills, &group.dest);
                let w = BroadcastWrite {
                    dest_property: group.dest.clone(),
                    value_expr: directs[v.first].value.clone(),
                    address_map: build_targets(&directs, &v.at),
                    spillover_map,
                    spillover_guard,
                };
                numbers.push(Some(writes.len()));
                writes.push(w);
                proof {
                    let model = write_of(
                        all,
                        all_spills(input),
                        group.dest@,
                        directs@[v.first as int].value.view(),
                    );
                    assert(w.view() == model);
                    assert(writes_view(writes@) =~= before.push(model));
                }
            },
            None => {
                numbers.push(None);
            },
        }
        g += 1;
    }
    assert(dests(all).subrange(0, g as int) =~= dests(all));
    let marks: Vec<bool> = mark_written(&directs, &index, &numbers, &writes);
    let absorbed_properties: StringHashSet = collect_absorbed(&directs, &marks);
    proof {
        assert forall|p: Seq<char>| #[trigger]
            absorbed_properties@.contains(p) <==> replaced(input, p) by {
            if absorbed_properties@.contains(p) {
                let i = choose|i: int|
                    0 <= i < directs@.len() && (#[trigger] directs@[i]).owner@ == p;
                assert(all[i].owner == p);
                assert forall|k: int|
                    0 <= k < all.len() && (#[trigger] all[k]).owner == p implies is_written(
                    all,
                    k,
                ) by {
                    assert(directs@[k].owner@ == p);
                    assert(marks@[k]);
                }
            }
            if replaced(input, p) {
                let i = choose|i: int| 0 <= i < all.len() && (#[trigger] all[i]).owner == p;
                assert(directs@[i].owner@ == p);
                assert forall|k: int|
                    0 <= k < directs@.len() && (
                    #[trigger] directs@[k]).owner@ == p implies marks@[k] by {
                    assert(all[k].owner == p);
                }
            }
        }
    }
    BroadcastResult { writes, absorbed_properties }
}

// ---------------------------------------------------------------------------
// Laws
// ---------------------------------------------------------------------------

proof fn lemma_stored_somewhere(all: Seq<DirectModel>, i: int)
    requires
        0 <= i < all.len(),
    ensures
        stores_to(all, all[i].dest).contains(i),
    decreases all.len(),
{
    let rest = all.drop_last();
    let at = stores_to(all, all[i].dest);
    if i < rest.len() {
        lemma_stored_somewhere(rest, i);
        assert(rest[i] == all[i]);
        let before = stores_to(rest, all[i].dest);
        let k = choose|k: int| 0 <= k < before.len() && before[k] == i;
        assert(at[k] == i);
    } else {
        assert(at[at.len() - 1] == i);
    }
}

proof fn lemma_storing_has(all: Seq<DirectModel>, at: Seq<int>, i: int)
    requires
        at.contains(i),
    ensures
        storing(all, at, all[i].value).contains(i),
    decreases at.len(),
{
    let rest = at.drop_last();
    let here = storing(all, at, all[i].value);
    let before = storing(all, rest, all[i].value);
    let k = choose|k: int| 0 <= k < at.len() && at[k] == i;
    if k < rest.len() {
        assert(rest[k] == i);
        lemma_storing_has(all, rest, i);
        let j = choose|j: int| 0 <= j < before.len() && before[j] == i;
        assert(here[j] == i);
    } else {
        assert(here[here.len() - 1] == i);
    }
}

/// A destination that broadcasts a value has a write.
pub proof fn lemma_writes_has(
    all: Seq<DirectModel>,
    spills: Seq<SpillModel>,
    of: Seq<Seq<char>>,
    dest: Seq<char>,
)
    requires
        of.contains(dest),
        broadcast_value(all, dest) is Some,
    ensures
        writes_of(all, spills, of).contains(
            write_of(all, spills, dest, broadcast_value(all, dest)->0),
        ),
    decreases of.len(),
{
    let rest = of.drop_last();
    let w = write_of(all, spills, dest, broadcast_value(all, dest)->0);
    let before = writes_of(all, spills, rest);
    let here = writes_of(all, spills, of);
    let k = choose|k: int| 0 <= k < of.len() && of[k] == dest;
    if k < rest.len() {
        assert(rest[k] == dest);
        lemma_writes_has(all, spills, rest, dest);
        let j = choose|j: int| 0 <= j < before.len() && before[j] == w;
        assert(here[j] == w);
    } else {
        assert(here[here.len() - 1] == w);
    }
}

/// The targets of a store's destination and value know the store's address.
proof fn lemma_target_known(all: Seq<DirectModel>, i: int)
    requires
        0 <= i < all.len(),
    ensures
        targets_of(all, all[i].dest, all[i].value).contains_key(all[i].addr),
{
    let at = stores_to(all, all[i].dest);
    lemma_stored_somewhere(all, i);
    lemma_storing_has(all, at, i);
    let places = storing(all, at, all[i].value);
    let pairs = target_pairs(all, places);
    tables::lemma_map_of(pairs);
    let n = choose|n: int| 0 <= n < places.len() && places[n] == i;
    assert(pairs[n] == (all[i].addr, all[i].owner));
}

/// Nothing is lost: every direct store of an absorbed property is part of a
/// write with the same destination and value, and that write leads from the
/// store's address to the property.
pub proof fn law_absorbed_is_written(
    assignments: Seq<AssignmentModel>,
    property: Seq<char>,
    i: int,
)
    requires
        replaced(assignments, property),
        0 <= i < all_directs(assignments).len(),
        all_directs(assignments)[i].owner == property,
    ensures
        ({
            let store = all_directs(assignments)[i];
            exists|k: int|
                0 <= k < broadcast_writes(assignments).len() && ({
                    let w = #[trigger] broadcast_writes(assignments)[k];
                    &&& w.dest == store.dest
                    &&& w.value == store.value
                    &&& w.targets.contains_key(store.addr)
                    &&& w.targets[store.addr] == property
                })
        }),
{
    let all = all_directs(assignments);
    let spills = all_spills(assignments);
    let store = all[i];
    assert(is_written(all, i));
    lemma_dests(all);
    lemma_writes_has(all, spills, dests(all), store.dest);
    let w = write_of(all, spills, store.dest, store.value);
    let k = choose|k: int|
        0 <= k < broadcast_writes(assignments).len() && broadcast_writes(assignments)[k] == w;
    assert(broadcast_writes(assignments)[k] == w);
    lemma_target_known(all, i);
}

} // verus!

//! The loop that the bodies for one number describe.

use crate::number::Number;
use crate::pattern::loop_descriptor as loops;
use crate::pattern::loop_descriptor::charge;
use crate::pattern::loop_descriptor::comparison;
use crate::pattern::loop_descriptor::dispatch;
use crate::pattern::loop_descriptor::family;
use crate::pattern::loop_descriptor::family::{DispatchFamily, FamilyModel, MemberModel};
use crate::pattern::loop_descriptor::index;
use crate::pattern::loop_descriptor::index::AssignmentIndex;
use crate::pattern::loop_descriptor::shapes;
use crate::pattern::loop_descriptor::shapes::{IpModel, IpShape};
use crate::pattern::loop_descriptor::walk;
use crate::pattern::loop_descriptor::{
    BulkClass, CounterEntry, CounterModel, LoopDescriptor, LoopModel, PointerEntry, PointerModel,
    Precondition, StoreModel, WriteEntry,
};
use crate::text;
use crate::types;
use crate::types::{AssignmentModel, Expr, ExprModel, StyleTest, TestModel};
use vstd::prelude::*;

verus! {

// ---------------------------------------------------------------------------
// Roles
// ---------------------------------------------------------------------------

/// What a member does in the loop.
pub enum RoleModel {
    /// Nothing: it has no body for the number, or it is the one that stays or
    /// advances.
    Absent,
    /// It counts down.
    Counter(CounterModel),
    /// It steps.
    Pointer(PointerModel),
    /// It feeds a memory write: an address where -1 stands for no write, or a
    /// value.
    Store { is_address: bool, body: ExprModel },
}

/// The role of a member for `k` in the loop of `ip`.
pub open spec fn role(m: MemberModel, k: i64, ip: Seq<char>) -> RoleModel {
    if m.property == ip || !m.bodies.contains_key(k) {
        RoleModel::Absent
    } else {
        let body = m.bodies[k];
        match shapes::counter_shape(body, m.property) {
            Some(c) => RoleModel::Counter(c),
            None => match shapes::pointer_shape(body, m.property) {
                Some(p) => RoleModel::Pointer(p),
                None => RoleModel::Store { is_address: walk::has_minus_one(body), body },
            },
        }
    }
}

/// The first member that counts down.
pub open spec fn counter_in(members: Seq<MemberModel>, k: i64, ip: Seq<char>) -> Option<CounterModel>
    decreases members.len(),
{
    if members.len() == 0 {
        None
    } else {
        match counter_in(members.drop_last(), k, ip) {
            Some(c) => Some(c),
            None => match role(members.last(), k, ip) {
                RoleModel::Counter(c) => Some(c),
                _ => None,
            },
        }
    }
}

/// The members that step, in source order.
pub open spec fn pointers_in(members: Seq<MemberModel>, k: i64, ip: Seq<char>) -> Seq<PointerModel>
    decreases members.len(),
{
    if members.len() == 0 {
        Seq::empty()
    } else {
        let before = pointers_in(members.drop_last(), k, ip);
        match role(members.last(), k, ip) {
            RoleModel::Pointer(p) => before.push(p),
            _ => before,
        }
    }
}

/// One side of a memory write: where it is assigned, its property and its body.
#[verifier::ext_equal]
pub struct SideModel {
    pub index: int,
    pub property: Seq<char>,
    pub body: ExprModel,
}

/// The addresses or the values of memory writes, in source order.
pub open spec fn sides_in(
    members: Seq<MemberModel>,
    k: i64,
    ip: Seq<char>,
    addresses: bool,
) -> Seq<SideModel>
    decreases members.len(),
{
    if members.len() == 0 {
        Seq::empty()
    } else {
        let before = sides_in(members.drop_last(), k, ip, addresses);
        let m = members.last();
        match role(m, k, ip) {
            RoleModel::Store { is_address, body } => if is_address == addresses {
                before.push(SideModel { index: m.index, property: m.property, body })
            } else {
                before
            },
            _ => before,
        }
    }
}

/// One side of a memory write by reference.
pub struct Side<'a> {
    assignment_index: usize,
    property: &'a String,
    body: &'a Expr,
}

impl<'a> Side<'a> {
    /// The value of a side.
    pub closed spec fn view(&self) -> SideModel {
        SideModel {
            index: self.assignment_index as int,
            property: self.property@,
            body: self.body.view(),
        }
    }
}

/// The values of a list of sides.
pub open spec fn sides_view(v: Seq<Side<'_>>) -> Seq<SideModel> {
    Seq::new(v.len(), |i: int| v[i].view())
}

/// The members of a loop by role.
pub struct Roles<'a> {
    counter: Option<CounterEntry>,
    pointers: Vec<PointerEntry>,
    addresses: Vec<Side<'a>>,
    values: Vec<Side<'a>>,
}

/// Sorts the members of a family by role.
fn sort_roles<'a>(family: &DispatchFamily<'a>, k: i64, ip: &String) -> (r: Roles<'a>)
    ensures
        match r.counter {
            Some(c) => counter_in(family.view().members, k, ip@) == Some(c.view()),
            None => counter_in(family.view().members, k, ip@) is None,
        },
        loops::pointers_view(r.pointers@) == pointers_in(family.view().members, k, ip@),
        sides_view(r.addresses@) == sides_in(family.view().members, k, ip@, true),
        sides_view(r.values@) == sides_in(family.view().members, k, ip@, false),
{
    let ghost all = family.view().members;
    let mut counter: Option<CounterEntry> = None;
    let mut pointers: Vec<PointerEntry> = Vec::new();
    let mut addresses: Vec<Side<'a>> = Vec::new();
    let mut values: Vec<Side<'a>> = Vec::new();
    let mut i: usize = 0;
    assert(all.subrange(0, 0) =~= Seq::<MemberModel>::empty());
    assert(loops::pointers_view(pointers@) =~= Seq::<PointerModel>::empty());
    assert(sides_view(addresses@) =~= Seq::<SideModel>::empty());
    assert(sides_view(values@) =~= Seq::<SideModel>::empty());
    while i < family.members.len()
        invariant
            i <= family.members@.len(),
            all == family::members_view(family.members@),
            match counter {
                Some(c) => counter_in(all.subrange(0, i as int), k, ip@) == Some(c.view()),
                None => counter_in(all.subrange(0, i as int), k, ip@) is None,
            },
            loops::pointers_view(pointers@) == pointers_in(all.subrange(0, i as int), k, ip@),
            sides_view(addresses@) == sides_in(all.subrange(0, i as int), k, ip@, true),
            sides_view(values@) == sides_in(all.subrange(0, i as int), k, ip@, false),
        decreases family.members@.len() - i,
    {
        let m = &family.members[i];
        assert(all.subrange(0, i + 1).drop_last() =~= all.subrange(0, i as int));
        assert(all.subrange(0, i + 1).last() == m.view());
        let ghost old_pointers = pointers@;
        let ghost old_addresses = addresses@;
        let ghost old_values = values@;
        if *m.property != *ip {
            if let Some(body) = m.body(k) {
                if let Some(c) = shapes::match_counter(body, m.property.as_str()) {
                    if counter.is_none() {
                        counter = Some(c);
                    }
                } else if let Some(p) = shapes::match_pointer(body, m.property.as_str()) {
                    pointers.push(p);
                    assert(loops::pointers_view(pointers@) =~= loops::pointers_view(
                        old_pointers,
                    ).push(p.view()));
                } else {
                    let side = Side {
                        assignment_index: m.assignment_index,
                        property: m.property,
                        body,
                    };
                    if walk::contains_minus_one(body) {
                        addresses.push(side);
                        assert(sides_view(addresses@) =~= sides_view(old_addresses).push(
                            side.view(),
                        ));
                    } else {
                        values.push(side);
                        assert(sides_view(values@) =~= sides_view(old_values).push(side.view()));
                    }
                }
            }
        }
        i += 1;
    }
    assert(all.subrange(0, i as int) =~= all);
    Roles { counter, pointers, addresses, values }
}

// ---------------------------------------------------------------------------
// Writes
// ---------------------------------------------------------------------------

/// The distance between two positions.
pub open spec fn distance(a: int, b: int) -> int {
    if a >= b {
        a - b
    } else {
        b - a
    }
}

/// Is position `x` a better partner for `at` than `y`: nearer, or as near and
/// behind it?
pub open spec fn nearer(x: int, y: int, at: int) -> bool {
    distance(x, at) < distance(y, at) || (distance(x, at) == distance(y, at) && x > y)
}

/// Position of the best partner for `at` among the first `n` values.
pub open spec fn nearest(values: Seq<SideModel>, at: int, n: nat) -> int
    decreases n,
{
    if n <= 1 {
        0
    } else {
        let best = nearest(values, at, (n - 1) as nat);
        if nearer(values[n - 1].index, values[best].index, at) {
            n - 1
        } else {
            best
        }
    }
}

/// The write of an address and its value.
pub open spec fn store_of(
    address: SideModel,
    value: Option<SideModel>,
    mirrors: Seq<Seq<char>>,
    v: Seq<AssignmentModel>,
) -> StoreModel {
    StoreModel {
        addr_property: address.property,
        val_property: match value {
            Some(s) => s.property,
            None => Seq::empty(),
        },
        addr: address.body,
        value: match value {
            Some(s) => s.body,
            None => ExprModel::Number(0),
        },
        parts: index::decomposed(address.body),
        read: match value {
            Some(s) => index::indirect_read(s.body, mirrors, v),
            None => None,
        },
    }
}

/// The memory writes: each address in source order takes the nearest value that
/// is left.
pub open spec fn stores(
    addresses: Seq<SideModel>,
    values: Seq<SideModel>,
    mirrors: Seq<Seq<char>>,
    v: Seq<AssignmentModel>,
) -> Seq<StoreModel>
    decreases addresses.len(),
{
    if addresses.len() == 0 {
        Seq::empty()
    } else {
        let rest = addresses.subrange(1, addresses.len() as int);
        if values.len() == 0 {
            seq![store_of(addresses[0], None, mirrors, v)] + stores(rest, values, mirrors, v)
        } else {
            let at = nearest(values, addresses[0].index, values.len());
            seq![store_of(addresses[0], Some(values[at]), mirrors, v)] + stores(
                rest,
                values.remove(at),
                mirrors,
                v,
            )
        }
    }
}

/// Finds the best partner for the assignment at `at`.
fn find_nearest(values: &Vec<Side<'_>>, at: usize) -> (r: usize)
    requires
        values@.len() > 0,
    ensures
        r < values@.len(),
        r == nearest(sides_view(values@), at as int, values@.len()),
{
    let ghost all = sides_view(values@);
    let mut best: usize = 0;
    let mut n: usize = 1;
    while n < values.len()
        invariant
            1 <= n <= values@.len(),
            all == sides_view(values@),
            best < n,
            best == nearest(all, at as int, n as nat),
        decreases values@.len() - n,
    {
        let x: usize = values[n].assignment_index;
        let y: usize = values[best].assignment_index;
        assert(all[n as int].index == x);
        assert(all[best as int].index == y);
        let dx: usize = if x >= at {
            x - at
        } else {
            at - x
        };
        let dy: usize = if y >= at {
            y - at
        } else {
            at - y
        };
        if dx < dy || (dx == dy && x > y) {
            best = n;
        }
        n += 1;
    }
    best
}

/// Pairs the addresses with the values.
fn pair_writes<'a>(
    addresses: &Vec<Side<'a>>,
    values: Vec<Side<'a>>,
    mirrors: &Vec<String>,
    index: &AssignmentIndex<'a>,
) -> (r: Vec<WriteEntry>)
    requires
        index.wf(),
    ensures
        loops::stores_view(r@) == stores(
            sides_view(addresses@),
            sides_view(values@),
            text::views(mirrors@),
            index.view(),
        ),
{
    let ghost all = sides_view(addresses@);
    let ghost start = sides_view(values@);
    let ghost names = text::views(mirrors@);
    let ghost v = index.view();
    let mut values = values;
    let mut out: Vec<WriteEntry> = Vec::new();
    let mut i: usize = 0;
    proof {
        assert(all.subrange(0, all.len() as int) =~= all);
        assert(loops::stores_view(out@) + stores(all, start, names, v) =~= stores(
            all,
            start,
            names,
            v,
        ));
    }
    while i < addresses.len()
        invariant
            i <= addresses@.len(),
            index.wf(),
            v == index.view(),
            names == text::views(mirrors@),
            all == sides_view(addresses@),
            stores(all, start, names, v) == loops::stores_view(out@) + stores(
                all.subrange(i as int, all.len() as int),
                sides_view(values@),
                names,
                v,
            ),
        decreases addresses@.len() - i,
    {
        let ghost rest = all.subrange(i as int, all.len() as int);
        let ghost written = loops::stores_view(out@);
        let ghost before = sides_view(values@);
        let a = &addresses[i];
        assert(rest[0] == a.view());
        assert(rest.subrange(1, rest.len() as int) =~= all.subrange(i + 1, all.len() as int));
        let parts: Option<(String, String)> = match index::decompose_addr_expr(a.body) {
            Some((s, p)) => Some((s.clone(), p.clone())),
            None => None,
        };
        let entry: WriteEntry;
        let ghost partner: Option<SideModel>;
        if values.len() == 0 {
            proof {
                partner = None;
            }
            entry =
            WriteEntry {
                addr_property: a.property.clone(),
                val_property: String::new(),
                addr_expr: a.body.clone(),
                val_expr: Expr::Literal(Number::from_bits(0)),
                addr_decomposition: parts,
                val_indirect_read: None,
            };
        } else {
            let at: usize = find_nearest(&values, a.assignment_index);
            let value: Side<'a> = values.remove(at);
            assert(before[at as int] == value.view());
            assert(sides_view(values@) =~= before.remove(at as int));
            proof {
                partner = Some(value.view());
            }
            entry =
            WriteEntry {
                addr_property: a.property.clone(),
                val_property: value.property.clone(),
                addr_expr: a.body.clone(),
                val_expr: value.body.clone(),
                addr_decomposition: parts,
                val_indirect_read: index::recognise_indirect_read(value.body, mirrors, index),
            };
        }
        assert(entry.view() =~= store_of(rest[0], partner, names, v));
        out.push(entry);
        i += 1;
        proof {
            let tail = stores(
                all.subrange(i as int, all.len() as int),
                sides_view(values@),
                names,
                v,
            );
            assert(stores(rest, before, names, v) == seq![entry.view()] + tail);
            assert(loops::stores_view(out@) =~= written.push(entry.view()));
            assert(written + (seq![entry.view()] + tail) =~= loops::stores_view(out@) + tail);
        }
    }
    proof {
        let tail = stores(
            all.subrange(i as int, all.len() as int),
            sides_view(values@),
            names,
            v,
        );
        assert(tail =~= Seq::<StoreModel>::empty());
        assert(loops::stores_view(out@) + tail =~= loops::stores_view(out@));
    }
    out
}

// ---------------------------------------------------------------------------
// Class
// ---------------------------------------------------------------------------

/// What a bulk application has to do: nothing without writes, copy where a
/// written value is read through a pointer, fill otherwise.
pub open spec fn bulk_class(mirrors: Seq<Seq<char>>, writes: Seq<StoreModel>) -> BulkClass {
    if writes.len() == 0 {
        BulkClass::ReadOnly
    } else if exists|i: int|
        0 <= i < writes.len() && (walk::mentions((#[trigger] writes[i]).value, mirrors)
            || writes[i].read is Some) {
        BulkClass::Copy
    } else {
        BulkClass::Fill
    }
}

/// Classifies a loop.
fn classify_bulk(mirrors: &Vec<String>, writes: &Vec<WriteEntry>) -> (r: BulkClass)
    ensures
        r == bulk_class(text::views(mirrors@), loops::stores_view(writes@)),
{
    let ghost all = loops::stores_view(writes@);
    if writes.len() == 0 {
        return BulkClass::ReadOnly;
    }
    let mut i: usize = 0;
    while i < writes.len()
        invariant
            i <= writes@.len(),
            writes@.len() > 0,
            all == loops::stores_view(writes@),
            forall|j: int|
                0 <= j < i ==> !walk::mentions((#[trigger] all[j]).value, text::views(mirrors@))
                    && all[j].read is None,
        decreases writes@.len() - i,
    {
        assert(all[i as int] == writes@[i as int].view());
        if walk::mentions_any(&writes[i].val_expr, mirrors)
            || writes[i].val_indirect_read.is_some() {
            return BulkClass::Copy;
        }
        i += 1;
    }
    BulkClass::Fill
}

// ---------------------------------------------------------------------------
// The loop
// ---------------------------------------------------------------------------

/// The first member from `i` on whose body for `k` stays or advances.
pub open spec fn ip_from(members: Seq<MemberModel>, k: i64, i: nat) -> Option<(Seq<char>, IpModel)>
    decreases members.len() - i,
{
    if i < members.len() {
        let m = members[i as int];
        if m.bodies.contains_key(k) && shapes::ip_shape(m.bodies[k]) is Some {
            Some((m.property, shapes::ip_shape(m.bodies[k])->0))
        } else {
            ip_from(members, k, i + 1)
        }
    } else {
        None
    }
}

/// Finds the first member that stays or advances.
fn find_ip<'a>(family: &DispatchFamily<'a>, k: i64) -> (r: Option<(&'a String, IpShape)>)
    ensures
        match r {
            Some((property, shape)) => ip_from(family.view().members, k, 0) == Some(
                (property@, shape.view()),
            ),
            None => ip_from(family.view().members, k, 0) is None,
        },
{
    let ghost all = family.view().members;
    let mut i: usize = 0;
    while i < family.members.len()
        invariant
            i <= family.members@.len(),
            all == family::members_view(family.members@),
            all == family.view().members,
            ip_from(all, k, 0) == ip_from(all, k, i as nat),
        decreases family.members@.len() - i,
    {
        let m = &family.members[i];
        assert(all[i as int] == m.view());
        if let Some(body) = m.body(k) {
            if let Some(shape) = shapes::match_ip_stay_or_advance(body) {
                return Some((m.property, shape));
            }
        }
        i += 1;
    }
    None
}

/// What must not hold for the dispatch of `ip` to decide its value.
pub open spec fn precondition(v: Seq<AssignmentModel>, ip: Seq<char>) -> Option<Seq<TestModel>> {
    match index::assigned(v, ip) {
        Some(top) => if dispatch::overrides(top).len() > 0 {
            Some(dispatch::overrides(top))
        } else {
            None
        },
        None => None,
    }
}

/// Finds what must not hold for the dispatch of `ip` to decide its value.
fn extract_precondition(index: &AssignmentIndex<'_>, ip: &str) -> (r: Option<Precondition>)
    requires
        index.wf(),
    ensures
        match r {
            Some(Precondition::NoOverrides(tests)) => precondition(index.view(), ip@) == Some(
                types::tests_view(tests@),
            ),
            None => precondition(index.view(), ip@) is None,
        },
{
    match index.get(ip) {
        Some(top) => {
            let mut tests: Vec<StyleTest> = Vec::new();
            dispatch::collect_override_branches(top, &mut tests);
            assert(types::tests_view(tests@) =~= dispatch::overrides(top.view()));
            assert(types::tests_view(tests@).len() == tests@.len());
            if tests.len() == 0 {
                None
            } else {
                Some(Precondition::NoOverrides(tests))
            }
        },
        None => None,
    }
}

/// The loop that the bodies for `k` describe: one member stays or advances, and
/// at least one other counts, steps or feeds a write.
#[verifier::opaque]
pub open spec fn loop_for(f: FamilyModel, k: i64, v: Seq<AssignmentModel>) -> Option<LoopModel> {
    match ip_from(f.members, k, 0) {
        Some((ip, shape)) => {
            let tested = walk::once_each(walk::tested_in(shape.predicate));
            let counter = counter_in(f.members, k, ip);
            let pointers = pointers_in(f.members, k, ip);
            let mirrors = comparison::priors(pointers);
            let writes = stores(
                sides_in(f.members, k, ip, true),
                sides_in(f.members, k, ip, false),
                mirrors,
                v,
            );
            if counter is None && pointers.len() == 0 && writes.len() == 0 {
                None
            } else {
                Some(
                    LoopModel {
                        key: f.key,
                        value: k,
                        ip,
                        ip_prior: shape.prior,
                        ip_advance: shape.advance,
                        tested,
                        predicate: shape.predicate,
                        holds_means_stay: shape.holds_means_stay,
                        counter,
                        pointers,
                        writes,
                        flag_conditioned: tested.len() > 1,
                        class: bulk_class(mirrors, writes),
                        charge: charge::charge(f.members, k),
                        ip_extra: shape.extra,
                        comparison: if tested.len() > 1 && writes.len() == 0 && pointers.len() > 0 {
                            comparison::comparison(f.members, k, pointers, shape.predicate, v)
                        } else {
                            None
                        },
                        overrides: precondition(v, ip),
                    },
                )
            }
        },
        None => None,
    }
}

/// Recognises the loop that the bodies for `k` describe.
pub fn recognise_one_opcode<'a>(
    family: &DispatchFamily<'a>,
    k: i64,
    index: &AssignmentIndex<'a>,
) -> (r: Option<LoopDescriptor>)
    requires
        family.wf(),
        index.wf(),
    ensures
        match r {
            Some(d) => loop_for(family.view(), k, index.view()) == Some(d.view()) && d.key_value
                == k,
            None => loop_for(family.view(), k, index.view()) is None,
        },
{
    proof {
        reveal(loop_for);
    }
    let (ip, shape): (&'a String, IpShape) = match find_ip(family, k) {
        Some((p, s)) => (p, s),
        None => {
            return None;
        },
    };
    let tested: Vec<String> = walk::collect_property_names_from_predicate(&shape.predicate);
    assert(text::views(tested@) =~= text::views(tested@));
    let roles: Roles<'a> = sort_roles(family, k, ip);
    let Roles { counter, pointers, addresses, values } = roles;
    let mirrors: Vec<String> = comparison::list_priors(&pointers);
    let writes: Vec<WriteEntry> = pair_writes(&addresses, values, &mirrors, index);
    assert(loops::pointers_view(pointers@).len() == pointers@.len());
    assert(loops::stores_view(writes@).len() == writes@.len());
    if counter.is_none() && pointers.len() == 0 && writes.len() == 0 {
        return None;
    }
    assert(text::views(tested@).len() == tested@.len());
    let flag_conditioned: bool = tested.len() > 1;
    let class: BulkClass = classify_bulk(&mirrors, &writes);
    let comparison_shape = if flag_conditioned && writes.len() == 0 && pointers.len() > 0 {
        comparison::extract_comparison_shape(family, k, &pointers, &shape.predicate, index)
    } else {
        None
    };
    let precondition: Option<Precondition> = extract_precondition(index, ip.as_str());
    let charge = charge::extract_per_iter_cycles(family, k);
    let d = LoopDescriptor {
        key_property: family.key_property.clone(),
        key_value: k,
        ip_property: ip.clone(),
        ip_self_property: shape.self_property,
        ip_advance_literal: shape.advance_literal,
        predicate_properties: tested,
        predicate: shape.predicate,
        predicate_means_stay: shape.predicate_means_stay,
        counter,
        pointers,
        writes,
        flag_conditioned,
        bulk_class: class,
        per_iter_cycles: charge,
        ip_extra_advance_slot: shape.extra_advance_slot,
        comparison_shape,
        precondition,
    };
    assert(d.view() =~= loop_for(family.view(), k, index.view())->0);
    Some(d)
}

} // verus!

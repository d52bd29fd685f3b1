//! What the memory writes and comparisons of a recognised loop have to do with the
//! bodies they were found in.

use crate::number;
use crate::pattern::loop_descriptor::comparison;
use crate::pattern::loop_descriptor::family::{FamilyModel, MemberModel};
use crate::pattern::loop_descriptor::index;
use crate::pattern::loop_descriptor::meaning;
use crate::pattern::loop_descriptor::meaning::Reading;
use crate::pattern::loop_descriptor::opcode;
use crate::pattern::loop_descriptor::opcode::{RoleModel, SideModel};
use crate::pattern::loop_descriptor::shapes;
use crate::pattern::loop_descriptor::walk;
use crate::pattern::loop_descriptor::{
    BulkClass, ComparisonModel, IndirectModel, PointerModel, SourceModel, StoreModel,
};
use crate::types::{AssignmentModel, CalcKind, ExprModel};
use vstd::prelude::*;

verus! {

// ---------------------------------------------------------------------------
// Addresses
// ---------------------------------------------------------------------------

/// Is `part` the expression itself, or a part of a part of it, `depth` levels down?
pub open spec fn has_part(e: ExprModel, part: ExprModel, depth: nat) -> bool
    decreases depth,
{
    if depth == 0 {
        e == part
    } else {
        exists|i: int|
            0 <= i < walk::children(e).len() && has_part(
                #[trigger] walk::children(e)[i],
                part,
                (depth - 1) as nat,
            )
    }
}

/// Is an expression the linear address `segment * 16 + pointer`, whatever the two
/// hold?
pub open spec fn is_linear(e: ExprModel, segment: Seq<char>, pointer: Seq<char>) -> bool {
    forall|r: Reading|
        (#[trigger] meaning::value(e, r)) == Some((r.vars)(segment) * 16 + (r.vars)(pointer))
}

proof fn lemma_scaled_segment(e: ExprModel, r: Reading)
    requires
        shapes::scaled_segment(e) is Some,
    ensures
        meaning::value(e, r) == Some((r.vars)(shapes::scaled_segment(e)->0) * 16),
{
    meaning::lemma_binary(e, CalcKind::Mul, r);
    let (a, b) = e.binary(CalcKind::Mul)->0;
    let s = shapes::scaled_segment(e)->0;
    assert(16 * (r.vars)(s) == (r.vars)(s) * 16);
}

proof fn lemma_segmented(e: ExprModel)
    requires
        shapes::segmented(e) is Some,
    ensures
        is_linear(e, (shapes::segmented(e)->0).0, (shapes::segmented(e)->0).1),
{
    let (s, p) = shapes::segmented(e)->0;
    let (a, b) = e.binary(CalcKind::Add)->0;
    assert forall|r: Reading| (#[trigger] meaning::value(e, r)) == Some(
        (r.vars)(s) * 16 + (r.vars)(p),
    ) by {
        meaning::lemma_binary(e, CalcKind::Add, r);
        if shapes::scaled_segment(a) is Some && b.bare_var() is Some {
            lemma_scaled_segment(a, r);
        } else {
            lemma_scaled_segment(b, r);
        }
    }
}

proof fn lemma_part_of_part(e: ExprModel, part: ExprModel, depth: nat, i: int)
    requires
        0 <= i < walk::children(e).len(),
        has_part(walk::children(e)[i], part, depth),
    ensures
        has_part(e, part, depth + 1),
{
    let deeper = depth + 1;
    assert(has_part(walk::children(e)[i], part, (deeper - 1) as nat));
}

/// An address that was taken apart holds the address of its two parts.
proof fn lemma_decomposed(e: ExprModel)
    ensures
        index::decomposed(e) matches Some((s, p)) ==> exists|part: ExprModel, depth: nat|
            #[trigger] has_part(e, part, depth) && is_linear(part, s, p),
    decreases e, walk::children(e).len() + 1,
{
    if let Some((s, p)) = index::decomposed(e) {
        if shapes::segmented(e) is Some {
            lemma_segmented(e);
            assert(has_part(e, e, 0));
        } else {
            lemma_decomposed_from(e, 0);
        }
    }
}

proof fn lemma_decomposed_from(e: ExprModel, i: nat)
    ensures
        index::decomposed_from(e, i) matches Some((s, p)) ==> exists|part: ExprModel, depth: nat|
            #[trigger] has_part(e, part, depth) && is_linear(part, s, p),
    decreases e, walk::children(e).len() - i,
{
    walk::lemma_children(e);
    if i < walk::children(e).len() {
        let child = walk::children(e)[i as int];
        assert(decreases_to!(e => walk::children(e)[i as int]));
        lemma_decomposed(child);
        if let Some((s, p)) = index::decomposed(child) {
            let (part, depth) = choose|part: ExprModel, depth: nat|
                #[trigger] has_part(child, part, depth) && is_linear(part, s, p);
            lemma_part_of_part(e, part, depth, i as int);
        } else {
            lemma_decomposed_from(e, i + 1);
        }
    }
}

// ---------------------------------------------------------------------------
// Values read through a pointer
// ---------------------------------------------------------------------------

/// Is an expression the sum of two variables and a constant?
pub open spec fn is_sum(e: ExprModel, segment: Seq<char>, pointer: Seq<char>, c: int) -> bool {
    forall|r: Reading|
        (#[trigger] meaning::value(e, r)) matches Some(x) ==> x == (r.vars)(segment) + (r.vars)(
            pointer,
        ) + c
}

proof fn lemma_added_segment(e: ExprModel, pointer: Seq<char>)
    requires
        index::added_segment(e, pointer) is Some,
    ensures
        exists|c: int| #[trigger] is_sum(e, index::added_segment(e, pointer)->0, pointer, c),
    decreases e,
{
    let segment = index::added_segment(e, pointer)->0;
    if let ExprModel::Calc(kind, parts) = e {
        let left = parts[0];
        let right = parts[1];
        assert(e.binary(CalcKind::Add) == Some((left, right)));
        if right is Number || left is Number {
            let (inner, literal) = if right is Number {
                (left, right)
            } else {
                (right, left)
            };
            assert(decreases_to!(parts => parts[0]) && decreases_to!(parts => parts[1]));
            lemma_added_segment(inner, pointer);
            let c = choose|c: int| #[trigger] is_sum(inner, segment, pointer, c);
            let k = match number::whole_value(literal->Number_0) {
                Some(k) => k,
                None => 0,
            };
            assert forall|r: Reading| (#[trigger] meaning::value(e, r)) is Some implies
                meaning::value(e, r)->0 == (r.vars)(segment) + (r.vars)(pointer) + (c + k) by {
                meaning::lemma_binary(e, CalcKind::Add, r);
                assert(meaning::value(inner, r) is Some);
            }
            assert(is_sum(e, segment, pointer, c + k));
        } else {
            assert forall|r: Reading| (#[trigger] meaning::value(e, r)) is Some implies
                meaning::value(e, r)->0 == (r.vars)(segment) + (r.vars)(pointer) + 0 by {
                meaning::lemma_binary(e, CalcKind::Add, r);
            }
            assert(is_sum(e, segment, pointer, 0));
        }
    }
}

/// Is a value that of a property which is assigned a call, the call mentions the
/// pointer, and where a segment is known, its first argument is the sum of segment,
/// pointer and a constant?
pub open spec fn reads_at(value: ExprModel, x: IndirectModel, v: Seq<AssignmentModel>) -> bool {
    &&& value == ExprModel::Var(x.through, None)
    &&& index::assigned(v, x.through) matches Some(ExprModel::Call(_, args))
    &&& walk::names_in_list(args, true).contains(x.pointer)
    &&& !x.scaled
    &&& x.segment matches Some(segment) ==> exists|c: int| #[trigger]
        is_sum(args[0], segment, x.pointer, c)
}

proof fn lemma_first_is_one(found: Seq<Seq<char>>, wanted: Seq<Seq<char>>)
    ensures
        walk::first_of(found, wanted) matches Some(x) ==> found.contains(x) && wanted.contains(x),
    decreases found.len(),
{
    if found.len() > 0 && !wanted.contains(found[0]) {
        let rest = found.subrange(1, found.len() as int);
        lemma_first_is_one(rest, wanted);
        if let Some(x) = walk::first_of(rest, wanted) {
            let i = rest.index_of(x);
            assert(found[i + 1] == x);
        }
    } else if found.len() > 0 {
        assert(found[0] == found[0]);
    }
}

proof fn lemma_indirect(
    value: ExprModel,
    mirrors: Seq<Seq<char>>,
    v: Seq<AssignmentModel>,
)
    ensures
        index::indirect_read(value, mirrors, v) matches Some(x) ==> reads_at(value, x, v)
            && mirrors.contains(x.pointer),
{
    if let Some(x) = index::indirect_read(value, mirrors, v) {
        if let Some(ExprModel::Call(_, args)) = index::assigned(v, x.through) {
            lemma_first_is_one(walk::names_in_list(args, true), mirrors);
            if index::added_segment(args[0], x.pointer) is Some {
                lemma_added_segment(args[0], x.pointer);
            }
        }
    }
}

// ---------------------------------------------------------------------------
// Writes
// ---------------------------------------------------------------------------

/// The member that a side was taken from: it has that property, comes at that place
/// in the source, and has that body for `k`.
pub open spec fn side_of(f: FamilyModel, k: i64, ip: Seq<char>, j: int, side: SideModel) -> bool {
    0 <= j < f.members.len() && f.members[j].property == side.property && side.property != ip
        && f.members[j].index == side.index && f.members[j].bodies.contains_key(k)
        && f.members[j].bodies[k] == side.body
}

/// Where the sides come from, in order.
spec fn sources(members: Seq<MemberModel>, k: i64, ip: Seq<char>, addresses: bool) -> Seq<int>
    decreases members.len(),
{
    if members.len() == 0 {
        Seq::empty()
    } else {
        let before = sources(members.drop_last(), k, ip, addresses);
        match opcode::role(members.last(), k, ip) {
            RoleModel::Store { is_address, .. } => if is_address == addresses {
                before.push(members.len() - 1)
            } else {
                before
            },
            _ => before,
        }
    }
}

proof fn lemma_sources(f: FamilyModel, members: Seq<MemberModel>, k: i64, ip: Seq<char>, addresses: bool)
    requires
        members.len() <= f.members.len(),
        members == f.members.subrange(0, members.len() as int),
    ensures
        ({
            let at = sources(members, k, ip, addresses);
            let sides = opcode::sides_in(members, k, ip, addresses);
            &&& at.len() == sides.len()
            &&& forall|i: int|
                0 <= i < at.len() ==> side_of(f, k, ip, #[trigger] at[i], sides[i]) && at[i]
                    < members.len() && walk::has_minus_one(sides[i].body) == addresses
            &&& forall|i: int, j: int|
                0 <= i < j < at.len() ==> (#[trigger] at[i]) < (#[trigger] at[j])
        }),
    decreases members.len(),
{
    if members.len() > 0 {
        let rest = members.drop_last();
        assert(rest =~= f.members.subrange(0, rest.len() as int));
        lemma_sources(f, rest, k, ip, addresses);
        let old = sources(rest, k, ip, addresses);
        let at = sources(members, k, ip, addresses);
        let sides = opcode::sides_in(members, k, ip, addresses);
        assert(members.last() == f.members[members.len() - 1]);
        assert forall|i: int| 0 <= i < at.len() implies side_of(f, k, ip, #[trigger] at[i], sides[i])
            && at[i] < members.len() && walk::has_minus_one(sides[i].body) == addresses by {
            if i < old.len() {
                assert(at[i] == old[i]);
                assert(sides[i] == opcode::sides_in(rest, k, ip, addresses)[i]);
            }
        }
        assert forall|i: int, j: int| 0 <= i < j < at.len() implies (#[trigger] at[i]) < (
        #[trigger] at[j]) by {
            assert(at[i] == old[i]);
            if j < old.len() {
                assert(at[j] == old[j]);
            }
        }
    }
}

/// The partners of the addresses: each takes the best of the values that are left.
spec fn partners(addresses: Seq<SideModel>, values: Seq<SideModel>) -> Seq<Option<SideModel>>
    decreases addresses.len(),
{
    if addresses.len() == 0 {
        Seq::empty()
    } else {
        let rest = addresses.subrange(1, addresses.len() as int);
        if values.len() == 0 {
            seq![None] + partners(rest, values)
        } else {
            let at = opcode::nearest(values, addresses[0].index, values.len());
            seq![Some(values[at])] + partners(rest, values.remove(at))
        }
    }
}

proof fn lemma_nearest(values: Seq<SideModel>, at: int, n: nat)
    requires
        0 < n <= values.len(),
    ensures
        0 <= opcode::nearest(values, at, n) < n,
        forall|i: int|
            0 <= i < n ==> at_least_as_near(
                values[opcode::nearest(values, at, n)].index,
                (#[trigger] values[i]).index,
                at,
            ),
    decreases n,
{
    if n > 1 {
        lemma_nearest(values, at, (n - 1) as nat);
    }
}

/// Is `x` no farther from `at` than `y`, and behind it where both are as far?
pub open spec fn at_least_as_near(x: int, y: int, at: int) -> bool {
    let a = if x >= at {
        x - at
    } else {
        at - x
    };
    let b = if y >= at {
        y - at
    } else {
        at - y
    };
    a < b || (a == b && x >= y)
}

proof fn lemma_partners(
    addresses: Seq<SideModel>,
    values: Seq<SideModel>,
    mirrors: Seq<Seq<char>>,
    v: Seq<AssignmentModel>,
)
    ensures
        ({
            let list = partners(addresses, values);
            let writes = opcode::stores(addresses, values, mirrors, v);
            &&& list.len() == addresses.len() == writes.len()
            &&& forall|i: int|
                0 <= i < list.len() ==> #[trigger] writes[i] == opcode::store_of(
                    addresses[i],
                    list[i],
                    mirrors,
                    v,
                )
            &&& forall|i: int|
                0 <= i < list.len() ==> ((#[trigger] list[i]) is Some <==> i < values.len())
            &&& forall|i: int|
                0 <= i < list.len() && (#[trigger] list[i]) is Some ==> values.contains(list[i]->0)
            &&& forall|i: int, j: int|
                0 <= i < j < list.len() && (#[trigger] list[j]) is Some ==> at_least_as_near(
                    ((#[trigger] list[i])->0).index,
                    (list[j]->0).index,
                    addresses[i].index,
                )
        }),
    decreases addresses.len(),
{
    if addresses.len() > 0 {
        let rest = addresses.subrange(1, addresses.len() as int);
        let list = partners(addresses, values);
        let writes = opcode::stores(addresses, values, mirrors, v);
        if values.len() == 0 {
            lemma_partners(rest, values, mirrors, v);
            let tail = partners(rest, values);
            assert forall|i: int| 0 <= i < list.len() implies #[trigger] writes[i]
                == opcode::store_of(addresses[i], list[i], mirrors, v) by {
                if i > 0 {
                    assert(opcode::stores(rest, values, mirrors, v)[i - 1] == writes[i]);
                    assert(tail[i - 1] == list[i]);
                }
            }
            assert forall|i: int| 0 <= i < list.len() implies (#[trigger] list[i]) is None by {
                if i > 0 {
                    assert(tail[i - 1] == list[i]);
                }
            }
        } else {
            let at = opcode::nearest(values, addresses[0].index, values.len());
            lemma_nearest(values, addresses[0].index, values.len());
            let left = values.remove(at);
            lemma_partners(rest, left, mirrors, v);
            let tail = partners(rest, left);
            assert(list[0] == Some(values[at]));
            assert forall|i: int| 0 < i < list.len() implies (#[trigger] list[i]) == tail[i - 1] by {}
            assert forall|i: int| 0 <= i < list.len() implies #[trigger] writes[i]
                == opcode::store_of(addresses[i], list[i], mirrors, v) by {
                if i > 0 {
                    assert(opcode::stores(rest, left, mirrors, v)[i - 1] == writes[i]);
                    assert(list[i] == tail[i - 1]);
                    assert(rest[i - 1] == addresses[i]);
                }
            }
            assert forall|i: int| 0 <= i < list.len() implies ((#[trigger] list[i]) is Some <==> i
                < values.len()) by {
                if i > 0 {
                    assert(list[i] == tail[i - 1]);
                }
            }
            assert forall|i: int| 0 <= i < list.len() && (
            #[trigger] list[i]) is Some implies values.contains(list[i]->0) by {
                if i > 0 {
                    assert(list[i] == tail[i - 1]);
                    lemma_left(values, at, list[i]->0);
                } else {
                    assert(values[at] == list[i]->0);
                }
            }
            assert forall|i: int, j: int|
                0 <= i < j < list.len() && (#[trigger] list[j]) is Some implies at_least_as_near(
                ((#[trigger] list[i])->0).index,
                (list[j]->0).index,
                addresses[i].index,
            ) by {
                assert(list[j] == tail[j - 1]);
                if i > 0 {
                    assert(list[i] == tail[i - 1]);
                    assert(rest[i - 1] == addresses[i]);
                } else {
                    lemma_left(values, at, list[j]->0);
                    let x = values.index_of(list[j]->0);
                    assert(values[x] == list[j]->0);
                }
            }
        }
    }
}

proof fn lemma_left(values: Seq<SideModel>, at: int, side: SideModel)
    requires
        0 <= at < values.len(),
        values.remove(at).contains(side),
    ensures
        values.contains(side),
{
    let i = values.remove(at).index_of(side);
    if i < at {
        assert(values[i] == side);
    } else {
        assert(values[i + 1] == side);
    }
}

/// Does a write come from a member that gives its address, and from one that gives
/// its value where there is one?
pub open spec fn write_of_members(
    f: FamilyModel,
    k: i64,
    ip: Seq<char>,
    v: Seq<AssignmentModel>,
    w: StoreModel,
    address: int,
    value: Option<int>,
) -> bool {
    &&& 0 <= address < f.members.len()
    &&& f.members[address].property == w.addr_property
    &&& w.addr_property != ip
    &&& f.members[address].bodies.contains_key(k)
    &&& f.members[address].bodies[k] == w.addr
    &&& walk::has_minus_one(w.addr)
    &&& w.parts matches Some((s, p)) ==> exists|part: ExprModel, depth: nat|
        #[trigger] has_part(w.addr, part, depth) && is_linear(part, s, p)
    &&& match value {
        Some(j) => {
            &&& 0 <= j < f.members.len()
            &&& f.members[j].property == w.val_property
            &&& w.val_property != ip
            &&& f.members[j].bodies.contains_key(k)
            &&& f.members[j].bodies[k] == w.value
            &&& !walk::has_minus_one(w.value)
            &&& w.read matches Some(x) ==> reads_at(w.value, x, v)
        },
        None => w.read is None && w.val_property.len() == 0,
    }
}

/// Every memory write of a recognised loop is that of two members: one whose body can
/// be -1 gives the address, and another gives the value. Where the address was taken
/// apart it holds `segment * 16 + pointer`; where the value is read through a pointer,
/// its property is assigned a call on that pointer. The addresses come in source
/// order, and no later address has a value that stands nearer to an earlier one than
/// its own.
pub proof fn law_writes_are_their_bodies(
    f: FamilyModel,
    k: i64,
    v: Seq<AssignmentModel>,
)
    requires
        opcode::loop_for(f, k, v) is Some,
    ensures
        ({
            let d = opcode::loop_for(f, k, v)->0;
            exists|from: Seq<int>, with: Seq<Option<int>>|
                from.len() == with.len() == d.writes.len() && #[trigger] written_from(
                    f,
                    k,
                    v,
                    d.ip,
                    d.writes,
                    from,
                    with,
                )
        }),
{
    reveal(opcode::loop_for);
    let d = opcode::loop_for(f, k, v)->0;
    let mirrors = comparison::priors(d.pointers);
    let addresses = opcode::sides_in(f.members, k, d.ip, true);
    let values = opcode::sides_in(f.members, k, d.ip, false);
    assert(f.members =~= f.members.subrange(0, f.members.len() as int));
    lemma_sources(f, f.members, k, d.ip, true);
    lemma_sources(f, f.members, k, d.ip, false);
    lemma_partners(addresses, values, mirrors, v);
    let from = sources(f.members, k, d.ip, true);
    let of_values = sources(f.members, k, d.ip, false);
    let list = partners(addresses, values);
    let with = Seq::new(
        list.len(),
        |i: int|
            match list[i] {
                Some(side) => Some(of_values[values.index_of(side)]),
                None => None,
            },
    );
    assert forall|i: int| 0 <= i < d.writes.len() implies write_of_members(
        f,
        k,
        d.ip,
        v,
        #[trigger] d.writes[i],
        from[i],
        with[i],
    ) by {
        let w = d.writes[i];
        assert(w == opcode::store_of(addresses[i], list[i], mirrors, v));
        assert(side_of(f, k, d.ip, from[i], addresses[i]));
        lemma_decomposed(addresses[i].body);
        if let Some(side) = list[i] {
            assert(values.contains(list[i]->0));
            let x = values.index_of(side);
            assert(side_of(f, k, d.ip, of_values[x], values[x]));
            lemma_indirect(side.body, mirrors, v);
        }
    }
    assert forall|i: int, j: int|
        0 <= i < j < with.len() && (#[trigger] with[j]) is Some && (
        #[trigger] with[i]) is Some implies at_least_as_near(
        f.members[with[i]->0].index,
        f.members[with[j]->0].index,
        f.members[from[i]].index,
    ) by {
        assert(list[i] is Some && list[j] is Some);
        let x = values.index_of(list[i]->0);
        let y = values.index_of(list[j]->0);
        assert(values.contains(list[i]->0) && values.contains(list[j]->0));
        assert(side_of(f, k, d.ip, of_values[x], values[x]));
        assert(side_of(f, k, d.ip, of_values[y], values[y]));
        assert(side_of(f, k, d.ip, from[i], addresses[i]));
    }
    assert(written_from(f, k, v, d.ip, d.writes, from, with));
}

/// Are these the members that the writes come from, with the addresses in source
/// order and the values paired by nearness?
pub open spec fn written_from(
    f: FamilyModel,
    k: i64,
    v: Seq<AssignmentModel>,
    ip: Seq<char>,
    writes: Seq<StoreModel>,
    from: Seq<int>,
    with: Seq<Option<int>>,
) -> bool {
    &&& forall|i: int|
        0 <= i < writes.len() ==> write_of_members(
            f,
            k,
            ip,
            v,
            #[trigger] writes[i],
            from[i],
            with[i],
        )
    &&& forall|i: int, j: int|
        0 <= i < j < from.len() ==> (#[trigger] from[i]) < (#[trigger] from[j])
    &&& forall|i: int, j: int|
        0 <= i < j < with.len() && (#[trigger] with[j]) is Some && (#[trigger] with[i]) is Some
            ==> at_least_as_near(
            f.members[with[i]->0].index,
            f.members[with[j]->0].index,
            f.members[from[i]].index,
        )
}

/// What a recognised loop does in bulk: nothing where it writes nothing; a copy where
/// a written value is read through one of its pointers or mentions one; a fill where
/// every written value mentions none.
pub proof fn law_class_follows_writes(f: FamilyModel, k: i64, v: Seq<AssignmentModel>)
    requires
        opcode::loop_for(f, k, v) is Some,
    ensures
        ({
            let d = opcode::loop_for(f, k, v)->0;
            &&& d.class == BulkClass::ReadOnly <==> d.writes.len() == 0
            &&& d.class == BulkClass::Copy <==> exists|i: int|
                0 <= i < d.writes.len() && reads_pointer(#[trigger] d.writes[i], d.pointers)
            &&& d.flag_conditioned <==> d.tested.len() > 1
        }),
{
    reveal(opcode::loop_for);
    let d = opcode::loop_for(f, k, v)->0;
    let mirrors = comparison::priors(d.pointers);
    assert forall|i: int| 0 <= i < d.writes.len() implies reads_pointer(
        #[trigger] d.writes[i],
        d.pointers,
    ) == (walk::mentions(d.writes[i].value, mirrors) || d.writes[i].read is Some) by {
        lemma_mentions(d.writes[i].value, d.pointers);
    }
    if exists|i: int|
        0 <= i < d.writes.len() && (walk::mentions((#[trigger] d.writes[i]).value, mirrors)
            || d.writes[i].read is Some) {
        let i = choose|i: int|
            0 <= i < d.writes.len() && (walk::mentions((#[trigger] d.writes[i]).value, mirrors)
                || d.writes[i].read is Some);
        assert(reads_pointer(d.writes[i], d.pointers));
    }
}

/// Is the value of a write read through a pointer, or does it mention the prior value
/// of one?
pub open spec fn reads_pointer(w: StoreModel, pointers: Seq<PointerModel>) -> bool {
    w.read is Some || exists|i: int|
        0 <= i < pointers.len() && walk::names_in(w.value, true).contains(
            (#[trigger] pointers[i]).prior,
        )
}

proof fn lemma_mentions(e: ExprModel, pointers: Seq<PointerModel>)
    ensures
        walk::mentions(e, comparison::priors(pointers)) <==> exists|i: int|
            0 <= i < pointers.len() && walk::names_in(e, true).contains(
                (#[trigger] pointers[i]).prior,
            ),
{
    let found = walk::names_in(e, true);
    let mirrors = comparison::priors(pointers);
    if walk::any_of(found, mirrors) {
        let i = choose|i: int| 0 <= i < found.len() && mirrors.contains(#[trigger] found[i]);
        let j = mirrors.index_of(found[i]);
        assert(pointers[j].prior == found[i]);
        assert(found.contains(pointers[j].prior));
    }
    if exists|i: int|
        0 <= i < pointers.len() && found.contains((#[trigger] pointers[i]).prior) {
        let j = choose|i: int|
            0 <= i < pointers.len() && found.contains((#[trigger] pointers[i]).prior);
        let i = found.index_of(pointers[j].prior);
        assert(mirrors[j] == found[i]);
        assert(mirrors.contains(found[i]));
    }
}

// ---------------------------------------------------------------------------
// Comparisons
// ---------------------------------------------------------------------------

/// Does an expression lead to another in so many steps, each from a whole to a part,
/// or from a property to what it is assigned?
pub open spec fn leads_to(
    e: ExprModel,
    target: ExprModel,
    v: Seq<AssignmentModel>,
    steps: nat,
) -> bool
    decreases steps,
{
    if steps == 0 {
        e == target
    } else {
        (exists|i: int|
            0 <= i < walk::children(e).len() && leads_to(
                #[trigger] walk::children(e)[i],
                target,
                v,
                (steps - 1) as nat,
            )) || (e matches ExprModel::Var(name, None) && (index::assigned(v, name) matches Some(
            body,
        ) && leads_to(body, target, v, (steps - 1) as nat)))
    }
}

/// Is an expression a segment plus a pointer, the segment times 16 if it is scaled?
pub open spec fn is_read_at(
    e: ExprModel,
    segment: Seq<char>,
    pointer: Seq<char>,
    scaled: bool,
) -> bool {
    forall|r: Reading|
        (#[trigger] meaning::value(e, r)) == Some(
            (r.vars)(segment) * (if scaled {
                16int
            } else {
                1int
            }) + (r.vars)(pointer),
        )
}

/// Does an expression lead to a call one of whose arguments is the segment plus the
/// pointer?
pub open spec fn reads_memory(
    e: ExprModel,
    v: Seq<AssignmentModel>,
    segment: Seq<char>,
    pointer: Seq<char>,
    scaled: bool,
) -> bool {
    exists|name: Seq<char>, args: Seq<ExprModel>, i: int, steps: nat|
        0 <= i < args.len() && #[trigger] leads_to(e, ExprModel::Call(name, args), v, steps)
            && is_read_at(#[trigger] args[i], segment, pointer, scaled)
}

proof fn lemma_argument(e: ExprModel, target: Seq<char>)
    requires
        comparison::segment_in_argument(e, target) is Some,
    ensures
        ({
            let (s, p, scaled) = comparison::segment_in_argument(e, target)->0;
            p == target && is_read_at(e, s, p, scaled)
        }),
{
    let (s, p, scaled) = comparison::segment_in_argument(e, target)->0;
    if shapes::segmented(e) is Some {
        lemma_segmented(e);
        assert forall|r: Reading| (#[trigger] meaning::value(e, r)) == Some(
            (r.vars)(s) * 16 + (r.vars)(p),
        ) by {}
    } else {
        assert forall|r: Reading| (#[trigger] meaning::value(e, r)) == Some(
            (r.vars)(s) * 1 + (r.vars)(p),
        ) by {
            meaning::lemma_binary(e, CalcKind::Add, r);
        }
    }
}

proof fn lemma_leads_on(e: ExprModel, v: Seq<AssignmentModel>, i: int, s: Seq<char>, p: Seq<char>, scaled: bool)
    requires
        0 <= i < walk::children(e).len(),
        reads_memory(walk::children(e)[i], v, s, p, scaled),
    ensures
        reads_memory(e, v, s, p, scaled),
{
    let child = walk::children(e)[i];
    let (name, args, j, steps) = choose|name: Seq<char>, args: Seq<ExprModel>, j: int, steps: nat|
        0 <= j < args.len() && #[trigger] leads_to(child, ExprModel::Call(name, args), v, steps)
            && is_read_at(#[trigger] args[j], s, p, scaled);
    let more = steps + 1;
    assert(leads_to(walk::children(e)[i], ExprModel::Call(name, args), v, (more - 1) as nat));
    assert(leads_to(e, ExprModel::Call(name, args), v, more));
    assert(is_read_at(args[j], s, p, scaled));
}

proof fn lemma_leads_through(
    name: Seq<char>,
    v: Seq<AssignmentModel>,
    s: Seq<char>,
    p: Seq<char>,
    scaled: bool,
)
    requires
        index::assigned(v, name) matches Some(body) && reads_memory(body, v, s, p, scaled),
    ensures
        reads_memory(ExprModel::Var(name, None), v, s, p, scaled),
{
    let body = index::assigned(v, name)->0;
    let e = ExprModel::Var(name, None);
    let (f, args, j, steps) = choose|f: Seq<char>, args: Seq<ExprModel>, j: int, steps: nat|
        0 <= j < args.len() && #[trigger] leads_to(body, ExprModel::Call(f, args), v, steps)
            && is_read_at(#[trigger] args[j], s, p, scaled);
    let more = steps + 1;
    assert((more - 1) as nat == steps);
    assert(leads_to(e, ExprModel::Call(f, args), v, more));
    assert(is_read_at(args[j], s, p, scaled));
}

proof fn lemma_traced(e: ExprModel, target: Seq<char>, v: Seq<AssignmentModel>, hops: nat)
    ensures
        comparison::traced(e, target, v, hops) matches Some((s, p, scaled)) ==> p == target
            && reads_memory(e, v, s, p, scaled),
    decreases hops, e, walk::children(e).len() + 1,
{
    match e {
        ExprModel::Var(name, None) => {
            if let Some(body) = index::assigned(v, name) {
                if hops > 0 {
                    lemma_traced(body, target, v, (hops - 1) as nat);
                    if let Some((s, p, scaled)) = comparison::traced(
                        body,
                        target,
                        v,
                        (hops - 1) as nat,
                    ) {
                        lemma_leads_through(name, v, s, p, scaled);
                    }
                }
            }
        },
        ExprModel::Call(_, _) => {
            lemma_traced_from(e, target, v, hops, 0);
        },
        ExprModel::Calc(kind, _) => {
            lemma_traced_from(e, target, v, hops, 0);
        },
        _ => {},
    }
}

proof fn lemma_traced_from(
    e: ExprModel,
    target: Seq<char>,
    v: Seq<AssignmentModel>,
    hops: nat,
    i: nat,
)
    ensures
        comparison::traced_from(e, target, v, hops, i) matches Some((s, p, scaled)) ==> p == target
            && reads_memory(e, v, s, p, scaled),
    decreases hops, e, walk::children(e).len() - i,
{
    walk::lemma_children(e);
    if i < walk::children(e).len() {
        assert(decreases_to!(e => walk::children(e)[i as int]));
        let part = walk::children(e)[i as int];
        lemma_traced(part, target, v, hops);
        if let Some((s, p, scaled)) = comparison::traced(part, target, v, hops) {
            lemma_leads_on(e, v, i as int, s, p, scaled);
        } else if e is Call && comparison::segment_in_argument(part, target) is Some {
            lemma_argument(part, target);
            let (s, p, scaled) = comparison::segment_in_argument(part, target)->0;
            let args = e->Call_1;
            assert(leads_to(e, ExprModel::Call(e->Call_0, args), v, 0));
            assert(is_read_at(args[i as int], s, p, scaled));
        } else {
            lemma_traced_from(e, target, v, hops, i + 1);
        }
    }
}

/// Is an expression the difference of two others, or a function of the two?
pub open spec fn subtracts(e: ExprModel, a: ExprModel, b: ExprModel) -> bool {
    (e matches ExprModel::Call(_, args) && args =~= seq![a, b]) || (forall|r: Reading|
        (#[trigger] meaning::value(e, r)) == match (meaning::value(a, r), meaning::value(b, r)) {
            (Some(x), Some(y)) => Some(x - y),
            _ => None,
        })
}

proof fn lemma_plain_subtraction(e: ExprModel)
    ensures
        comparison::plain_subtraction(e) matches Some((a, b)) ==> subtracts(e, a, b),
{
    if let Some((a, b)) = comparison::plain_subtraction(e) {
        if e.binary(CalcKind::Sub) is Some {
            assert forall|r: Reading| (#[trigger] meaning::value(e, r)) == match (
                meaning::value(a, r),
                meaning::value(b, r),
            ) {
                (Some(x), Some(y)) => Some(x - y),
                _ => None,
            } by {
                meaning::lemma_binary(e, CalcKind::Sub, r);
            }
        } else if e.binary(CalcKind::Add) is Some {
            let negation = (e.binary(CalcKind::Add)->0).1;
            assert forall|r: Reading| (#[trigger] meaning::value(e, r)) == match (
                meaning::value(a, r),
                meaning::value(b, r),
            ) {
                (Some(x), Some(y)) => Some(x - y),
                _ => None,
            } by {
                meaning::lemma_binary(e, CalcKind::Add, r);
                meaning::lemma_negated(negation, r);
            }
        } else {
            assert(e->Call_1 =~= seq![a, b]);
        }
    }
}

/// A subtraction stands in the expression itself, in its fallback or in a summand of
/// either.
proof fn lemma_subtraction(e: ExprModel)
    ensures
        comparison::subtraction(e) matches Some((a, b)) ==> exists|part: ExprModel, depth: nat|
            #[trigger] has_part(e, part, depth) && subtracts(part, a, b),
{
    if let Some((a, b)) = comparison::subtraction(e) {
        let inner = match e {
            ExprModel::Cond(_, fallback) => *fallback,
            _ => e,
        };
        let part = match inner.binary(CalcKind::Add) {
            Some((x, y)) => if comparison::plain_subtraction(x) is Some {
                x
            } else if comparison::plain_subtraction(y) is Some {
                y
            } else {
                inner
            },
            None => inner,
        };
        lemma_plain_subtraction(part);
        assert(has_part(part, part, 0));
        let down: nat = if part == inner {
            0
        } else {
            1
        };
        if part != inner {
            let k: int = if inner.binary(CalcKind::Add)->0 == (part, (inner.binary(CalcKind::Add)->0).1) {
                0
            } else {
                1
            };
            assert(walk::children(inner)[k] == part);
            lemma_part_of_part(inner, part, 0, k);
        }
        assert(has_part(inner, part, down));
        if let ExprModel::Cond(branches, fallback) = e {
            let n = branches.len() as int;
            assert(walk::children(e)[n] == inner);
            lemma_part_of_part(e, part, down, n);
            assert(has_part(e, part, down + 1));
        } else {
            assert(has_part(e, part, down));
        }
    }
}

proof fn lemma_compared_from(
    members: Seq<MemberModel>,
    k: i64,
    pointers: Seq<PointerModel>,
    v: Seq<AssignmentModel>,
    i: nat,
)
    ensures
        comparison::compared_from(members, k, pointers, v, i) matches Some((a, b)) ==> exists|
            j: int,
        |
            0 <= j < members.len() && comparison::compared_by(
                #[trigger] members[j],
                k,
                pointers,
                v,
            ) == Some((a, b)),
    decreases members.len() - i,
{
    if i < members.len() && comparison::compared_by(members[i as int], k, pointers, v) is None {
        lemma_compared_from(members, k, pointers, v, i + 1);
    }
}

proof fn lemma_walker(e: ExprModel, pointers: Seq<PointerModel>, v: Seq<AssignmentModel>, i: nat)
    ensures
        comparison::walker(e, pointers, v, i) matches Some(at) ==> i <= at < pointers.len(),
    decreases pointers.len() - i,
{
    if i < pointers.len() {
        lemma_walker(e, pointers, v, i + 1);
    }
}

/// Does member `j` subtract `b` from `a` for `k`, somewhere in its body?
pub open spec fn member_subtracts(
    f: FamilyModel,
    k: i64,
    j: int,
    a: ExprModel,
    b: ExprModel,
) -> bool {
    0 <= j < f.members.len() && f.members[j].bodies.contains_key(k) && exists|
        part: ExprModel,
        depth: nat,
    | #[trigger]
        has_part(f.members[j].bodies[k], part, depth) && subtracts(part, a, b)
}

/// The comparison of a recognised loop is a subtraction that one of its bodies makes.
/// Its destination is memory that one operand reads behind one of the loop's pointers,
/// at the segment and with the scaling that it names, and as wide as that pointer's
/// step; its source, where that is memory, is what the other operand reads behind
/// another pointer. The destination is the subtracted operand, unless that is read
/// through no pointer.
pub proof fn law_comparison_is_its_body(f: FamilyModel, k: i64, v: Seq<AssignmentModel>)
    requires
        opcode::loop_for(f, k, v) matches Some(d) && d.comparison is Some,
    ensures
        ({
            let d = opcode::loop_for(f, k, v)->0;
            let c = d.comparison->0;
            exists|j: int, a: ExprModel, b: ExprModel, swapped: bool, at: int| #[trigger]
                member_subtracts(f, k, j, a, b) && #[trigger] compares_operands(
                    d.pointers,
                    v,
                    c,
                    a,
                    b,
                    swapped,
                    at,
                )
        }),
{
    reveal(opcode::loop_for);
    let d = opcode::loop_for(f, k, v)->0;
    let c = d.comparison->0;
    lemma_compared_from(f.members, k, d.pointers, v, 0);
    let (a, b) = comparison::compared_from(f.members, k, d.pointers, v, 0)->0;
    let j = choose|j: int|
        0 <= j < f.members.len() && comparison::compared_by(
            #[trigger] f.members[j],
            k,
            d.pointers,
            v,
        ) == Some((a, b));
    lemma_subtraction(f.members[j].bodies[k]);
    assert(member_subtracts(f, k, j, a, b));
    let swapped = comparison::walker(b, d.pointers, v, 0) is None;
    let (destination, source) = if swapped {
        (a, b)
    } else {
        (b, a)
    };
    let at = comparison::walker(destination, d.pointers, v, 0)->0;
    lemma_walker(destination, d.pointers, v, 0);
    lemma_traced(destination, d.pointers[at].prior, v, v.len());
    if d.pointers.len() >= 2 {
        let other: int = if at == 0 {
            1
        } else {
            0
        };
        lemma_traced(source, d.pointers[other].prior, v, v.len());
    }
    if swapped {
        lemma_not_walked(b, d.pointers, v, 0);
    }
    assert(compares(d.pointers, v, c, destination, source, at));
    assert(compares_operands(d.pointers, v, c, a, b, swapped, at));
}

/// Is this the comparison of the operands of `a - b`: of `b` as its destination with
/// `a`, or the other way round where `b` is read through no pointer?
pub open spec fn compares_operands(
    pointers: Seq<PointerModel>,
    v: Seq<AssignmentModel>,
    c: ComparisonModel,
    a: ExprModel,
    b: ExprModel,
    swapped: bool,
    at: int,
) -> bool {
    if swapped {
        compares(pointers, v, c, a, b, at) && forall|i: int|
            0 <= i < pointers.len() ==> !comparison::reads_through(
                b,
                seq![(#[trigger] pointers[i]).prior],
                v,
            )
    } else {
        compares(pointers, v, c, b, a, at)
    }
}

proof fn lemma_not_walked(
    e: ExprModel,
    pointers: Seq<PointerModel>,
    v: Seq<AssignmentModel>,
    i: nat,
)
    requires
        comparison::walker(e, pointers, v, i) is None,
    ensures
        forall|j: int|
            i <= j < pointers.len() ==> !comparison::reads_through(
                e,
                seq![(#[trigger] pointers[j]).prior],
                v,
            ),
    decreases pointers.len() - i,
{
    if i < pointers.len() {
        lemma_not_walked(e, pointers, v, i + 1);
    }
}

/// Is this the comparison of what the destination reads behind pointer `at` with the
/// source?
pub open spec fn compares(
    pointers: Seq<PointerModel>,
    v: Seq<AssignmentModel>,
    c: ComparisonModel,
    destination: ExprModel,
    source: ExprModel,
    at: int,
) -> bool {
    &&& 0 <= at < pointers.len()
    &&& c.pointer == pointers[at].prior
    &&& c.width == pointers[at].step as u8
    &&& reads_memory(destination, v, c.segment, c.pointer, c.scaled)
    &&& match c.source {
        SourceModel::Pointer { segment, scaled, pointer } => {
            &&& pointers.len() >= 2
            &&& exists|other: int|
                0 <= other < pointers.len() && other != at && (#[trigger] pointers[other]).prior
                    == pointer
            &&& reads_memory(source, v, segment, pointer, scaled)
        },
        SourceModel::Accumulator { byte, word } => {
            &&& pointers.len() == 1
            &&& byte == word
            &&& source == ExprModel::Var(byte, None) || (source.binary(CalcKind::Add) matches Some(
                (x, y),
            ) && (x == ExprModel::Var(byte, None) || y == ExprModel::Var(byte, None)))
        },
    }
}

} // verus!

//! What broadcast writes have to do with the branches of the assignments.

use crate::names;
use crate::number;
use crate::pattern::broadcast_write as broadcast;
use crate::pattern::broadcast_write::{DirectModel, PortShape, SpillModel, WriteModel};
use crate::tables;
use crate::text;
use crate::types::{AssignmentModel, BranchModel, ExprModel, TestModel};
use vstd::prelude::*;

verus! {

// ---------------------------------------------------------------------------
// Branches
// ---------------------------------------------------------------------------

/// Is this the test `property = n`?
pub open spec fn tests_number(t: TestModel, property: Seq<char>, n: i64) -> bool {
    t matches TestModel::Single(p, value) && p == property && (*value matches ExprModel::Number(
        bits,
    ) && number::as_i64(bits) == n)
}

/// Is this the branch `dest = a -> ..`?
pub open spec fn stores_at(b: BranchModel, dest: Seq<char>, a: i64) -> bool {
    tests_number(b.condition, dest, a)
}

/// Is this the branch `dest = a and guard = 1 -> ..`? The two tests may stand in
/// either order; where both are against 1 the first one is the guard.
pub open spec fn spills_at(b: BranchModel, dest: Seq<char>, a: i64, guard: Seq<char>) -> bool {
    b.condition matches TestModel::And(tests) && tests.len() == 2 && ((tests_number(
        tests[0],
        guard,
        1,
    ) && tests_number(tests[1], dest, a)) || (tests_number(tests[0], dest, a) && tests_number(
        tests[1],
        guard,
        1,
    ) && a != 1))
}

/// Is a branch a store of either kind?
pub open spec fn some_store(b: BranchModel) -> bool {
    (exists|dest: Seq<char>, a: i64| #[trigger] stores_at(b, dest, a)) || (exists|
        dest: Seq<char>,
        a: i64,
        guard: Seq<char>,
    | #[trigger]
        spills_at(b, dest, a, guard))
}

/// Does an assignment consist of stores alone and otherwise keep its value? Buffer
/// copies do not count.
pub open spec fn stores_only(a: AssignmentModel) -> bool {
    &&& !text::starts_with(a.property, "--__"@)
    &&& a.value matches ExprModel::Cond(branches, fallback)
    &&& branches.len() > 0
    &&& forall|j: int| 0 <= j < branches.len() ==> some_store(#[trigger] branches[j])
    &&& *fallback matches ExprModel::Var(name, _)
    &&& names::keeps(name, a.property)
}

/// The branches of an assignment.
pub open spec fn branches_of(a: AssignmentModel) -> Seq<BranchModel> {
    match a.value {
        ExprModel::Cond(branches, _) => branches,
        _ => Seq::empty(),
    }
}

/// Is there a branch `j` of an assignment `m` that consists of stores alone?
pub open spec fn is_store_branch(v: Seq<AssignmentModel>, at: (int, int)) -> bool {
    0 <= at.0 < v.len() && stores_only(v[at.0]) && 0 <= at.1 < branches_of(v[at.0]).len()
}

/// That branch.
pub open spec fn branch_at(v: Seq<AssignmentModel>, at: (int, int)) -> BranchModel {
    branches_of(v[at.0])[at.1]
}

/// Does one branch stand before another?
pub open spec fn before(a: (int, int), b: (int, int)) -> bool {
    a.0 < b.0 || (a.0 == b.0 && a.1 < b.1)
}

proof fn lemma_shape(b: BranchModel)
    ensures
        forall|dest: Seq<char>, a: i64|
            #[trigger] stores_at(b, dest, a) <==> broadcast::port_shape(b) == Some(
                PortShape::Direct { dest, addr: a, value: b.body },
            ),
        forall|dest: Seq<char>, a: i64, guard: Seq<char>|
            #[trigger] spills_at(b, dest, a, guard) <==> broadcast::port_shape(b) == Some(
                PortShape::Spillover { dest, source: a, guard, value: b.body },
            ),
        some_store(b) <==> broadcast::port_shape(b) is Some,
{
    match broadcast::port_shape(b) {
        Some(PortShape::Direct { dest, addr, value }) => {
            assert(stores_at(b, dest, addr));
        },
        Some(PortShape::Spillover { dest, source, guard, value }) => {
            assert(spills_at(b, dest, source, guard));
        },
        None => {},
    }
}

proof fn lemma_ports(a: AssignmentModel)
    ensures
        stores_only(a) <==> broadcast::ports_of(a) is Some,
        broadcast::ports_of(a) matches Some(ports) ==> ports.len() == branches_of(a).len()
            && forall|j: int|
            0 <= j < ports.len() ==> broadcast::port_shape(branches_of(a)[j]) == Some(
                #[trigger] ports[j],
            ),
{
    if let ExprModel::Cond(branches, fallback) = a.value {
        assert forall|j: int| 0 <= j < branches.len() implies some_store(#[trigger] branches[j])
            == broadcast::port_shape(branches[j]) is Some by {
            lemma_shape(branches[j]);
        }
        if stores_only(a) {
            assert forall|j: int| 0 <= j < branches.len() implies broadcast::port_shape(
                #[trigger] branches[j],
            ) is Some by {
                assert(some_store(branches[j]));
            }
        }
    }
}

// ---------------------------------------------------------------------------
// Places
// ---------------------------------------------------------------------------

/// Places of the ports of one kind, in order.
spec fn places(ports: Seq<PortShape>, m: int, spill: bool) -> Seq<(int, int)>
    decreases ports.len(),
{
    if ports.len() == 0 {
        Seq::empty()
    } else if ports.last() is Spillover == spill {
        places(ports.drop_last(), m, spill).push((m, ports.len() - 1))
    } else {
        places(ports.drop_last(), m, spill)
    }
}

/// Places of all stores of one kind, in order.
spec fn all_places(v: Seq<AssignmentModel>, spill: bool) -> Seq<(int, int)>
    decreases v.len(),
{
    if v.len() == 0 {
        Seq::empty()
    } else {
        match broadcast::ports_of(v.last()) {
            Some(ports) => all_places(v.drop_last(), spill) + places(ports, v.len() - 1, spill),
            None => all_places(v.drop_last(), spill),
        }
    }
}

/// Do the places name the ports of one kind, each once and in order?
spec fn places_hold(at: Seq<(int, int)>, ports: Seq<PortShape>, m: int, spill: bool) -> bool {
    &&& forall|k: int|
        0 <= k < at.len() ==> (#[trigger] at[k]).0 == m && 0 <= at[k].1 < ports.len()
            && ports[at[k].1] is Spillover == spill
    &&& forall|k: int, l: int|
        0 <= k < l < at.len() ==> before(#[trigger] at[k], #[trigger] at[l])
    &&& forall|j: int|
        0 <= j < ports.len() && (#[trigger] ports[j]) is Spillover == spill ==> at.contains((m, j))
}

proof fn lemma_places(ports: Seq<PortShape>, m: int, owner: Seq<char>, spill: bool)
    ensures
        places_hold(places(ports, m, spill), ports, m, spill),
        spill ==> broadcast::spills_in(ports, owner).len() == places(ports, m, spill).len(),
        !spill ==> broadcast::directs_in(ports, owner).len() == places(ports, m, spill).len(),
        spill ==> forall|k: int|
            0 <= k < places(ports, m, spill).len() ==> spill_is(
                ports[(#[trigger] places(ports, m, spill)[k]).1],
                owner,
                broadcast::spills_in(ports, owner)[k],
            ),
        !spill ==> forall|k: int|
            0 <= k < places(ports, m, spill).len() ==> direct_is(
                ports[(#[trigger] places(ports, m, spill)[k]).1],
                owner,
                broadcast::directs_in(ports, owner)[k],
            ),
    decreases ports.len(),
{
    if ports.len() > 0 {
        let rest = ports.drop_last();
        lemma_places(rest, m, owner, spill);
        let old = places(rest, m, spill);
        let at = places(ports, m, spill);
        let n = rest.len() as int;
        assert(ports[n] == ports.last());
        assert forall|k: int| 0 <= k < at.len() implies (#[trigger] at[k]).0 == m && 0 <= at[k].1
            < ports.len() && ports[at[k].1] is Spillover == spill by {
            if k < old.len() {
                assert(at[k] == old[k]);
                assert(rest[old[k].1] == ports[old[k].1]);
            }
        }
        assert forall|k: int, l: int| 0 <= k < l < at.len() implies before(
            #[trigger] at[k],
            #[trigger] at[l],
        ) by {
            assert(at[k] == old[k]);
            if l < old.len() {
                assert(at[l] == old[l]);
                assert(before(old[k], old[l]));
            }
        }
        assert forall|j: int|
            0 <= j < ports.len() && (#[trigger] ports[j]) is Spillover == spill implies at.contains(
            (m, j),
        ) by {
            if j < n {
                assert(rest[j] == ports[j]);
                let k = old.index_of((m, j));
                assert(at[k] == (m, j));
            } else {
                assert(at[at.len() - 1] == (m, j));
            }
        }
        if spill {
            assert forall|k: int| 0 <= k < at.len() implies spill_is(
                ports[(#[trigger] at[k]).1],
                owner,
                broadcast::spills_in(ports, owner)[k],
            ) by {
                if k < old.len() {
                    assert(at[k] == old[k]);
                    assert(rest[old[k].1] == ports[old[k].1]);
                }
            }
        } else {
            assert forall|k: int| 0 <= k < at.len() implies direct_is(
                ports[(#[trigger] at[k]).1],
                owner,
                broadcast::directs_in(ports, owner)[k],
            ) by {
                if k < old.len() {
                    assert(at[k] == old[k]);
                    assert(rest[old[k].1] == ports[old[k].1]);
                }
            }
        }
    }
}

/// Is a spillover store that of a port?
spec fn spill_is(port: PortShape, owner: Seq<char>, s: SpillModel) -> bool {
    port == (PortShape::Spillover {
        dest: s.dest,
        source: s.source,
        guard: s.guard,
        value: s.value,
    }) && s.owner == owner
}

/// Is a direct store that of a port?
spec fn direct_is(port: PortShape, owner: Seq<char>, d: DirectModel) -> bool {
    port == (PortShape::Direct { dest: d.dest, addr: d.addr, value: d.value }) && d.owner == owner
}

/// Is the store of one kind at place `at` the one that the list holds?
spec fn placed(v: Seq<AssignmentModel>, at: (int, int), spill: bool) -> bool {
    is_store_branch(v, at) && (if spill {
        broadcast::port_shape(branch_at(v, at))->0 is Spillover
    } else {
        broadcast::port_shape(branch_at(v, at))->0 is Direct
    })
}

/// Is this spillover store that of the branch at a place?
spec fn spill_at(v: Seq<AssignmentModel>, at: (int, int), s: SpillModel) -> bool {
    spills_at(branch_at(v, at), s.dest, s.source, s.guard) && s.value == branch_at(v, at).body
        && s.owner == v[at.0].property
}

/// Is this direct store that of the branch at a place?
spec fn direct_at(v: Seq<AssignmentModel>, at: (int, int), d: DirectModel) -> bool {
    stores_at(branch_at(v, at), d.dest, d.addr) && d.value == branch_at(v, at).body && d.owner
        == v[at.0].property
}

/// Do the places name the stores of one kind, each once and in order?
spec fn all_hold(v: Seq<AssignmentModel>, at: Seq<(int, int)>, spill: bool) -> bool {
    &&& forall|k: int| 0 <= k < at.len() ==> placed(v, #[trigger] at[k], spill)
    &&& forall|k: int, l: int|
        0 <= k < l < at.len() ==> before(#[trigger] at[k], #[trigger] at[l])
    &&& forall|x: (int, int)| #[trigger] placed(v, x, spill) ==> at.contains(x)
}

proof fn lemma_all_places(v: Seq<AssignmentModel>, spill: bool)
    ensures
        all_hold(v, all_places(v, spill), spill),
        spill ==> broadcast::all_spills(v).len() == all_places(v, spill).len(),
        !spill ==> broadcast::all_directs(v).len() == all_places(v, spill).len(),
        spill ==> forall|k: int|
            0 <= k < all_places(v, spill).len() ==> spill_at(
                v,
                #[trigger] all_places(v, spill)[k],
                broadcast::all_spills(v)[k],
            ),
        !spill ==> forall|k: int|
            0 <= k < all_places(v, spill).len() ==> direct_at(
                v,
                #[trigger] all_places(v, spill)[k],
                broadcast::all_directs(v)[k],
            ),
    decreases v.len(),
{
    if v.len() > 0 {
        let rest = v.drop_last();
        let a = v.last();
        let m = v.len() - 1;
        lemma_all_places(rest, spill);
        lemma_ports(a);
        let old = all_places(rest, spill);
        let at = all_places(v, spill);
        assert forall|x: (int, int)| x.0 < m implies #[trigger] placed(v, x, spill) == placed(
            rest,
            x,
            spill,
        ) by {
            if 0 <= x.0 {
                assert(rest[x.0] == v[x.0]);
            }
        }
        assert(v[m] == a);
        if let Some(ports) = broadcast::ports_of(a) {
            lemma_places(ports, m, a.property, spill);
            let new = places(ports, m, spill);
            assert(at == old + new);
            assert forall|k: int| 0 <= k < at.len() implies placed(v, #[trigger] at[k], spill) by {
                if k < old.len() {
                    assert(at[k] == old[k]);
                    assert(placed(rest, old[k], spill));
                } else {
                    assert(at[k] == new[k - old.len()]);
                    assert(ports[at[k].1] == broadcast::port_shape(branches_of(a)[at[k].1])->0);
                }
            }
            assert forall|k: int, l: int| 0 <= k < l < at.len() implies before(
                #[trigger] at[k],
                #[trigger] at[l],
            ) by {
                if l < old.len() {
                    assert(before(old[k], old[l]));
                } else if k >= old.len() {
                    assert(before(new[k - old.len()], new[l - old.len()]));
                } else {
                    assert(placed(rest, old[k], spill));
                    assert(new[l - old.len()].0 == m);
                }
            }
            assert forall|x: (int, int)| #[trigger] placed(v, x, spill) implies at.contains(x) by {
                if x.0 < m {
                    assert(placed(rest, x, spill));
                    let k = old.index_of(x);
                    assert(at[k] == x);
                } else {
                    assert(ports[x.1] is Spillover == spill);
                    assert(x == (m, x.1));
                    let k = new.index_of(x);
                    assert(at[old.len() + k] == x);
                }
            }
            lemma_stores_follow(v, spill);
        } else {
            assert forall|k: int| 0 <= k < at.len() implies placed(v, #[trigger] at[k], spill) by {
                assert(placed(rest, old[k], spill));
            }
            assert forall|x: (int, int)| #[trigger] placed(v, x, spill) implies at.contains(x) by {
                assert(placed(rest, x, spill));
            }
            lemma_stores_follow(v, spill);
        }
    }
}

/// The stores of one more assignment are those of its branches.
proof fn lemma_stores_follow(v: Seq<AssignmentModel>, spill: bool)
    requires
        v.len() > 0,
        all_hold(v.drop_last(), all_places(v.drop_last(), spill), spill),
        spill ==> broadcast::all_spills(v.drop_last()).len() == all_places(
            v.drop_last(),
            spill,
        ).len(),
        !spill ==> broadcast::all_directs(v.drop_last()).len() == all_places(
            v.drop_last(),
            spill,
        ).len(),
        spill ==> forall|k: int|
            0 <= k < all_places(v.drop_last(), spill).len() ==> spill_at(
                v.drop_last(),
                #[trigger] all_places(v.drop_last(), spill)[k],
                broadcast::all_spills(v.drop_last())[k],
            ),
        !spill ==> forall|k: int|
            0 <= k < all_places(v.drop_last(), spill).len() ==> direct_at(
                v.drop_last(),
                #[trigger] all_places(v.drop_last(), spill)[k],
                broadcast::all_directs(v.drop_last())[k],
            ),
    ensures
        spill ==> broadcast::all_spills(v).len() == all_places(v, spill).len(),
        !spill ==> broadcast::all_directs(v).len() == all_places(v, spill).len(),
        spill ==> forall|k: int|
            0 <= k < all_places(v, spill).len() ==> spill_at(
                v,
                #[trigger] all_places(v, spill)[k],
                broadcast::all_spills(v)[k],
            ),
        !spill ==> forall|k: int|
            0 <= k < all_places(v, spill).len() ==> direct_at(
                v,
                #[trigger] all_places(v, spill)[k],
                broadcast::all_directs(v)[k],
            ),
{
    let rest = v.drop_last();
    let a = v.last();
    let m = v.len() - 1;
    lemma_ports(a);
    let old = all_places(rest, spill);
    let at = all_places(v, spill);
    assert(v[m] == a);
    if let Some(ports) = broadcast::ports_of(a) {
        lemma_places(ports, m, a.property, spill);
    }
    assert forall|k: int| 0 <= k < at.len() implies if spill {
        spill_at(v, #[trigger] at[k], broadcast::all_spills(v)[k])
    } else {
        direct_at(v, at[k], broadcast::all_directs(v)[k])
    } by {
        if k < old.len() {
            assert(at[k] == old[k]);
            assert(placed(rest, old[k], spill));
            assert(rest[old[k].0] == v[old[k].0]);
        } else {
            let ports = broadcast::ports_of(a)->0;
            let x = places(ports, m, spill)[k - old.len()];
            assert(at[k] == x);
            lemma_shape(branches_of(a)[x.1]);
            assert(broadcast::port_shape(branches_of(a)[x.1]) == Some(ports[x.1]));
            if spill {
                let s = broadcast::spills_in(ports, a.property)[k - old.len()];
                assert(spill_is(ports[x.1], a.property, s));
                assert(broadcast::all_spills(v)[k] == s);
                lemma_body(branches_of(a)[x.1]);
            } else {
                let d = broadcast::directs_in(ports, a.property)[k - old.len()];
                assert(direct_is(ports[x.1], a.property, d));
                assert(broadcast::all_directs(v)[k] == d);
                lemma_body(branches_of(a)[x.1]);
            }
        }
    }
}

/// A port stores the body of its branch.
proof fn lemma_body(b: BranchModel)
    ensures
        broadcast::port_shape(b) matches Some(PortShape::Direct { value, .. }) ==> value == b.body,
        broadcast::port_shape(b) matches Some(PortShape::Spillover { value, .. }) ==> value
            == b.body,
{
}

// ---------------------------------------------------------------------------
// Maps
// ---------------------------------------------------------------------------

/// Of the pairs with a key the last one counts.
proof fn lemma_last_wins<K, V>(items: Seq<(K, V)>, key: K)
    ensures
        forall|i: int|
            0 <= i < items.len() && (#[trigger] items[i]).0 == key ==> tables::map_of(
                items,
            ).contains_key(key),
        tables::map_of(items).contains_key(key) ==> exists|i: int|
            0 <= i < items.len() && (#[trigger] items[i]).0 == key && tables::map_of(items)[key]
                == items[i].1 && forall|j: int| i < j < items.len() ==> (#[trigger] items[j]).0 != key,
    decreases items.len(),
{
    if items.len() > 0 {
        let rest = items.drop_last();
        let n = rest.len() as int;
        lemma_last_wins(rest, key);
        assert(items[n] == items.last());
        assert forall|i: int| 0 <= i < items.len() && (
        #[trigger] items[i]).0 == key implies tables::map_of(items).contains_key(key) by {
            if i < n {
                assert(rest[i] == items[i]);
            }
        }
        if tables::map_of(items).contains_key(key) && items.last().0 != key {
            assert(tables::map_of(rest).contains_key(key));
            let i = choose|i: int|
                0 <= i < rest.len() && (#[trigger] rest[i]).0 == key && tables::map_of(rest)[key]
                    == rest[i].1 && forall|j: int|
                    i < j < rest.len() ==> (#[trigger] rest[j]).0 != key;
            assert(items[i] == rest[i]);
            assert forall|j: int| i < j < items.len() implies (#[trigger] items[j]).0 != key by {
                if j < n {
                    assert(rest[j] == items[j]);
                }
            }
        }
    }
}

/// Is store `k` a spillover to `dest` from `a`?
spec fn hits(spills: Seq<SpillModel>, k: int, dest: Seq<char>, a: i64) -> bool {
    0 <= k < spills.len() && spills[k].dest == dest && spills[k].source == a
}

/// Of the spillovers from an address the last one counts.
proof fn lemma_spill_map(spills: Seq<SpillModel>, dest: Seq<char>, a: i64)
    ensures
        ({
            let map = tables::map_of(broadcast::spill_pairs(broadcast::spills_to(spills, dest)));
            &&& forall|k: int| #[trigger] hits(spills, k, dest, a) ==> map.contains_key(a)
            &&& map.contains_key(a) ==> exists|k: int| #[trigger]
                hits(spills, k, dest, a) && map[a] == (spills[k].owner, spills[k].value)
                    && forall|j: int| k < j ==> !#[trigger] hits(spills, j, dest, a)
        }),
    decreases spills.len(),
{
    let mine = broadcast::spills_to(spills, dest);
    let map = tables::map_of(broadcast::spill_pairs(mine));
    if spills.len() > 0 {
        let rest = spills.drop_last();
        let n = rest.len() as int;
        lemma_spill_map(rest, dest, a);
        let old = broadcast::spills_to(rest, dest);
        let before_map = tables::map_of(broadcast::spill_pairs(old));
        let last = spills.last();
        assert(spills[n] == last);
        if last.dest == dest {
            let pair = (last.source, (last.owner, last.value));
            assert(broadcast::spill_pairs(mine) =~= broadcast::spill_pairs(old).push(pair));
            assert(broadcast::spill_pairs(mine).drop_last() =~= broadcast::spill_pairs(old));
            assert(map == before_map.insert(last.source, (last.owner, last.value)));
        }
        assert forall|k: int| k < n implies #[trigger] hits(spills, k, dest, a) == hits(
            rest,
            k,
            dest,
            a,
        ) by {
            if 0 <= k {
                assert(rest[k] == spills[k]);
            }
        }
        assert forall|k: int| #[trigger] hits(spills, k, dest, a) implies map.contains_key(a) by {
            if k < n {
                assert(hits(rest, k, dest, a));
            }
        }
        if map.contains_key(a) {
            if hits(spills, n, dest, a) {
                assert(map[a] == (spills[n].owner, spills[n].value));
            } else {
                assert(before_map.contains_key(a) && map[a] == before_map[a]);
                let k = choose|k: int| #[trigger]
                    hits(rest, k, dest, a) && before_map[a] == (rest[k].owner, rest[k].value)
                        && forall|j: int| k < j ==> !#[trigger] hits(rest, j, dest, a);
                assert(hits(spills, k, dest, a));
                assert forall|j: int| k < j implies !#[trigger] hits(spills, j, dest, a) by {
                    if j < n {
                        assert(!hits(rest, j, dest, a));
                    }
                }
            }
        }
    } else {
        assert(broadcast::spill_pairs(mine) =~= Seq::empty());
    }
}

/// Every write is that of a destination property.
proof fn lemma_write_is(
    all: Seq<DirectModel>,
    spills: Seq<SpillModel>,
    of: Seq<Seq<char>>,
    k: int,
)
    requires
        0 <= k < broadcast::writes_of(all, spills, of).len(),
    ensures
        ({
            let w = broadcast::writes_of(all, spills, of)[k];
            broadcast::broadcast_value(all, w.dest) == Some(w.value) && w == broadcast::write_of(
                all,
                spills,
                w.dest,
                w.value,
            ) && of.contains(w.dest)
        }),
    decreases of.len(),
{
    let rest = of.drop_last();
    let old = broadcast::writes_of(all, spills, rest);
    if k < old.len() {
        lemma_write_is(all, spills, rest, k);
        let w = old[k];
        assert(broadcast::writes_of(all, spills, of)[k] == w);
        let i = rest.index_of(w.dest);
        assert(of[i] == w.dest);
    } else {
        assert(of[of.len() - 1] == of.last());
    }
}

// ---------------------------------------------------------------------------
// Spillovers
// ---------------------------------------------------------------------------

/// Is the branch at a place a spillover `dest = a and guard = 1`, for some guard?
pub open spec fn spills_from(
    v: Seq<AssignmentModel>,
    at: (int, int),
    dest: Seq<char>,
    a: i64,
) -> bool {
    is_store_branch(v, at) && exists|guard: Seq<char>| #[trigger]
        spills_at(branch_at(v, at), dest, a, guard)
}

proof fn lemma_spills_from(v: Seq<AssignmentModel>, at: (int, int), dest: Seq<char>, a: i64)
    requires
        spills_from(v, at, dest, a),
    ensures
        exists|k: int|
            0 <= k < all_places(v, true).len() && #[trigger] all_places(v, true)[k] == at && hits(
                broadcast::all_spills(v),
                k,
                dest,
                a,
            ),
{
    lemma_all_places(v, true);
    lemma_shape(branch_at(v, at));
    let guard = choose|guard: Seq<char>| #[trigger] spills_at(branch_at(v, at), dest, a, guard);
    assert(placed(v, at, true));
    let places = all_places(v, true);
    let k = places.index_of(at);
    assert(places[k] == at);
    let s = broadcast::all_spills(v)[k];
    assert(spill_at(v, places[k], s));
    assert(spills_at(branch_at(v, at), s.dest, s.source, s.guard));
}

proof fn lemma_hit_spills(v: Seq<AssignmentModel>, k: int, dest: Seq<char>, a: i64)
    requires
        hits(broadcast::all_spills(v), k, dest, a),
    ensures
        0 <= k < all_places(v, true).len(),
        spills_from(v, all_places(v, true)[k], dest, a),
        spill_at(v, all_places(v, true)[k], broadcast::all_spills(v)[k]),
{
    lemma_all_places(v, true);
    let at = all_places(v, true)[k];
    let s = broadcast::all_spills(v)[k];
    assert(placed(v, at, true));
    assert(spill_at(v, at, s));
    assert(spills_at(branch_at(v, at), dest, a, s.guard));
}

/// A broadcast write keeps the spillovers of its destination: a branch
/// `dest = a and guard = 1 -> value` of a property, with no later branch for the same
/// destination and address, is what the write holds at `a`.
pub proof fn law_spillover_is_kept(
    v: Seq<AssignmentModel>,
    i: int,
    at: (int, int),
    a: i64,
    guard: Seq<char>,
)
    requires
        0 <= i < broadcast::broadcast_writes(v).len(),
        is_store_branch(v, at),
        spills_at(branch_at(v, at), broadcast::broadcast_writes(v)[i].dest, a, guard),
        forall|later: (int, int)| #[trigger]
            before(at, later) ==> !spills_from(
                v,
                later,
                broadcast::broadcast_writes(v)[i].dest,
                a,
            ),
    ensures
        broadcast::broadcast_writes(v)[i].spills.contains_key(a),
        broadcast::broadcast_writes(v)[i].spills[a] == (v[at.0].property, branch_at(v, at).body),
{
    let w = broadcast::broadcast_writes(v)[i];
    let all = broadcast::all_directs(v);
    let spills = broadcast::all_spills(v);
    lemma_write_is(all, spills, broadcast::dests(all), i);
    lemma_spill_map(spills, w.dest, a);
    assert(spills_from(v, at, w.dest, a));
    lemma_spills_from(v, at, w.dest, a);
    lemma_all_places(v, true);
    let places = all_places(v, true);
    let k = choose|k: int|
        0 <= k < places.len() && #[trigger] places[k] == at && hits(spills, k, w.dest, a);
    assert(hits(spills, k, w.dest, a));
    let last = choose|j: int| #[trigger]
        hits(spills, j, w.dest, a) && w.spills[a] == (spills[j].owner, spills[j].value)
            && forall|l: int| j < l ==> !#[trigger] hits(spills, l, w.dest, a);
    lemma_hit_spills(v, last, w.dest, a);
    if k < last {
        assert(before(places[k], places[last]));
    }
    assert(k == last);
    lemma_hit_spills(v, k, w.dest, a);
}

/// A broadcast write holds no other spillovers: what it holds at `a` is the property
/// and the value of the last branch `dest = a and guard = 1`.
pub proof fn law_spillover_has_a_branch(v: Seq<AssignmentModel>, i: int, a: i64)
    requires
        0 <= i < broadcast::broadcast_writes(v).len(),
        broadcast::broadcast_writes(v)[i].spills.contains_key(a),
    ensures
        exists|at: (int, int)| #[trigger]
            spills_from(v, at, broadcast::broadcast_writes(v)[i].dest, a)
                && broadcast::broadcast_writes(v)[i].spills[a] == (
                v[at.0].property,
                branch_at(v, at).body,
            ) && forall|later: (int, int)| #[trigger]
                before(at, later) ==> !spills_from(
                    v,
                    later,
                    broadcast::broadcast_writes(v)[i].dest,
                    a,
                ),
{
    let w = broadcast::broadcast_writes(v)[i];
    let all = broadcast::all_directs(v);
    let spills = broadcast::all_spills(v);
    lemma_write_is(all, spills, broadcast::dests(all), i);
    lemma_spill_map(spills, w.dest, a);
    lemma_all_places(v, true);
    let places = all_places(v, true);
    let last = choose|j: int| #[trigger]
        hits(spills, j, w.dest, a) && w.spills[a] == (spills[j].owner, spills[j].value)
            && forall|l: int| j < l ==> !#[trigger] hits(spills, l, w.dest, a);
    lemma_hit_spills(v, last, w.dest, a);
    let at = places[last];
    assert forall|later: (int, int)| #[trigger] before(at, later) implies !spills_from(
        v,
        later,
        w.dest,
        a,
    ) by {
        if spills_from(v, later, w.dest, a) {
            lemma_spills_from(v, later, w.dest, a);
            let k = choose|k: int|
                0 <= k < places.len() && #[trigger] places[k] == later && hits(
                    spills,
                    k,
                    w.dest,
                    a,
                );
            if k < last {
                assert(before(places[k], places[last]));
            }
            assert(!hits(spills, k, w.dest, a));
        }
    }
    assert(spills_from(v, at, w.dest, a));
}

proof fn lemma_first_spill(spills: Seq<SpillModel>, dest: Seq<char>)
    ensures
        ({
            let mine = broadcast::spills_to(spills, dest);
            &&& mine.len() == 0 ==> forall|k: int|
                0 <= k < spills.len() ==> (#[trigger] spills[k]).dest != dest
            &&& mine.len() > 0 ==> exists|k: int|
                0 <= k < spills.len() && (#[trigger] spills[k]) == mine[0] && spills[k].dest == dest
                    && forall|j: int| 0 <= j < k ==> (#[trigger] spills[j]).dest != dest
        }),
    decreases spills.len(),
{
    if spills.len() > 0 {
        let rest = spills.drop_last();
        let n = rest.len() as int;
        lemma_first_spill(rest, dest);
        let old = broadcast::spills_to(rest, dest);
        let mine = broadcast::spills_to(spills, dest);
        assert(spills[n] == spills.last());
        assert forall|k: int| 0 <= k < n implies (#[trigger] spills[k]) == rest[k] by {}
        if old.len() > 0 {
            let k = choose|k: int|
                0 <= k < rest.len() && (#[trigger] rest[k]) == old[0] && rest[k].dest == dest
                    && forall|j: int| 0 <= j < k ==> (#[trigger] rest[j]).dest != dest;
            assert(spills[k] == mine[0]);
            assert forall|j: int| 0 <= j < k implies (#[trigger] spills[j]).dest != dest by {
                assert(rest[j].dest != dest);
            }
        } else {
            assert forall|j: int| 0 <= j < n implies (#[trigger] spills[j]).dest != dest by {
                assert(rest[j].dest != dest);
            }
            if spills.last().dest == dest {
                assert(spills[n] == mine[0]);
            }
        }
    }
}

/// Is the branch at a place a spillover to `dest`?
pub open spec fn spills_towards(v: Seq<AssignmentModel>, at: (int, int), dest: Seq<char>) -> bool {
    exists|a: i64| #[trigger] spills_from(v, at, dest, a)
}

/// The guard of a broadcast write is that of the first spillover to its destination;
/// a write without guard has no spillovers.
pub proof fn law_guard_is_the_first(
    v: Seq<AssignmentModel>,
    i: int,
    at: (int, int),
    a: i64,
    guard: Seq<char>,
)
    requires
        0 <= i < broadcast::broadcast_writes(v).len(),
        is_store_branch(v, at),
        spills_at(branch_at(v, at), broadcast::broadcast_writes(v)[i].dest, a, guard),
    ensures
        broadcast::broadcast_writes(v)[i].guard is Some,
        (forall|earlier: (int, int)| #[trigger]
            before(earlier, at) ==> !spills_towards(
                v,
                earlier,
                broadcast::broadcast_writes(v)[i].dest,
            )) ==> broadcast::broadcast_writes(v)[i].guard == Some(guard),
{
    let w = broadcast::broadcast_writes(v)[i];
    let all = broadcast::all_directs(v);
    let spills = broadcast::all_spills(v);
    lemma_write_is(all, spills, broadcast::dests(all), i);
    lemma_first_spill(spills, w.dest);
    assert(spills_from(v, at, w.dest, a));
    lemma_spills_from(v, at, w.dest, a);
    lemma_all_places(v, true);
    let places = all_places(v, true);
    let k = choose|k: int|
        0 <= k < places.len() && #[trigger] places[k] == at && hits(spills, k, w.dest, a);
    assert(spills[k].dest == w.dest);
    let mine = broadcast::spills_to(spills, w.dest);
    assert(mine.len() > 0);
    let first = choose|k: int|
        0 <= k < spills.len() && (#[trigger] spills[k]) == mine[0] && spills[k].dest == w.dest
            && forall|j: int| 0 <= j < k ==> (#[trigger] spills[j]).dest != w.dest;
    assert(first <= k);
    if forall|earlier: (int, int)| #[trigger]
        before(earlier, at) ==> !spills_towards(v, earlier, w.dest) {
        assert(hits(spills, first, w.dest, spills[first].source));
        lemma_hit_spills(v, first, w.dest, spills[first].source);
        if first < k {
            assert(before(places[first], places[k]));
            assert(spills_towards(v, places[first], w.dest));
        }
        assert(first == k);
        assert(spill_at(v, places[k], spills[k]));
        lemma_shape(branch_at(v, at));
    }
}

/// A broadcast write without spillovers has no guard.
pub proof fn law_no_guard_without_spillover(v: Seq<AssignmentModel>, i: int)
    requires
        0 <= i < broadcast::broadcast_writes(v).len(),
        broadcast::broadcast_writes(v)[i].guard is Some,
    ensures
        exists|at: (int, int)| #[trigger]
            spills_towards(v, at, broadcast::broadcast_writes(v)[i].dest),
{
    let w = broadcast::broadcast_writes(v)[i];
    let all = broadcast::all_directs(v);
    let spills = broadcast::all_spills(v);
    lemma_write_is(all, spills, broadcast::dests(all), i);
    lemma_first_spill(spills, w.dest);
    let mine = broadcast::spills_to(spills, w.dest);
    let k = choose|k: int|
        0 <= k < spills.len() && (#[trigger] spills[k]) == mine[0] && spills[k].dest == w.dest
            && forall|j: int| 0 <= j < k ==> (#[trigger] spills[j]).dest != w.dest;
    assert(hits(spills, k, w.dest, spills[k].source));
    lemma_hit_spills(v, k, w.dest, spills[k].source);
    assert(spills_towards(v, all_places(v, true)[k], w.dest));
}

// ---------------------------------------------------------------------------
// Targets
// ---------------------------------------------------------------------------

/// Are the positions ascending, and exactly those of the stores of `value` to `dest`?
spec fn exact(
    at: Seq<int>,
    all: Seq<DirectModel>,
    dest: Seq<char>,
    value: Option<ExprModel>,
) -> bool {
    &&& forall|k: int|
        0 <= k < at.len() ==> 0 <= (#[trigger] at[k]) < all.len() && all[at[k]].dest == dest && (
        value matches Some(x) ==> all[at[k]].value == x)
    &&& forall|k: int, l: int| 0 <= k < l < at.len() ==> (#[trigger] at[k]) < (#[trigger] at[l])
    &&& forall|i: int|
        0 <= i < all.len() && (#[trigger] all[i]).dest == dest && (value matches Some(x)
            ==> all[i].value == x) ==> at.contains(i)
}

proof fn lemma_stores_exact(all: Seq<DirectModel>, dest: Seq<char>)
    ensures
        exact(broadcast::stores_to(all, dest), all, dest, None),
    decreases all.len(),
{
    if all.len() > 0 {
        let rest = all.drop_last();
        let n = rest.len() as int;
        lemma_stores_exact(rest, dest);
        let old = broadcast::stores_to(rest, dest);
        let at = broadcast::stores_to(all, dest);
        assert forall|k: int| 0 <= k < n implies (#[trigger] all[k]) == rest[k] by {}
        assert forall|k: int| 0 <= k < at.len() implies 0 <= (#[trigger] at[k]) < all.len()
            && all[at[k]].dest == dest by {
            if k < old.len() {
                assert(at[k] == old[k]);
                assert(rest[old[k]].dest == dest);
            }
        }
        assert forall|k: int, l: int| 0 <= k < l < at.len() implies (#[trigger] at[k]) < (
        #[trigger] at[l]) by {
            assert(at[k] == old[k]);
            if l < old.len() {
                assert(old[k] < old[l]);
            }
        }
        assert forall|i: int| 0 <= i < all.len() && (
        #[trigger] all[i]).dest == dest implies at.contains(i) by {
            if i < n {
                assert(rest[i].dest == dest);
                let k = old.index_of(i);
                assert(at[k] == i);
            } else {
                assert(at[at.len() - 1] == i);
            }
        }
    }
}

proof fn lemma_storing(all: Seq<DirectModel>, at: Seq<int>, value: ExprModel)
    ensures
        ({
            let here = broadcast::storing(all, at, value);
            &&& forall|k: int|
                0 <= k < here.len() ==> at.contains(#[trigger] here[k]) && all[here[k]].value
                    == value
            &&& (forall|k: int, l: int|
                0 <= k < l < at.len() ==> (#[trigger] at[k]) < (#[trigger] at[l])) ==> forall|
                k: int,
                l: int,
            |
                0 <= k < l < here.len() ==> (#[trigger] here[k]) < (#[trigger] here[l])
            &&& forall|k: int|
                0 <= k < at.len() && all[#[trigger] at[k]].value == value ==> here.contains(at[k])
        }),
    decreases at.len(),
{
    if at.len() > 0 {
        let rest = at.drop_last();
        let n = rest.len() as int;
        lemma_storing(all, rest, value);
        let old = broadcast::storing(all, rest, value);
        let here = broadcast::storing(all, at, value);
        assert(at[n] == at.last());
        assert forall|k: int| 0 <= k < here.len() implies at.contains(#[trigger] here[k])
            && all[here[k]].value == value by {
            if k < old.len() {
                assert(here[k] == old[k]);
                let j = rest.index_of(old[k]);
                assert(at[j] == old[k]);
            }
        }
        if forall|k: int, l: int|
            0 <= k < l < at.len() ==> (#[trigger] at[k]) < (#[trigger] at[l]) {
            assert forall|k: int, l: int| 0 <= k < l < rest.len() implies (#[trigger] rest[k]) < (
            #[trigger] rest[l]) by {
                assert(at[k] < at[l]);
            }
            assert forall|k: int, l: int| 0 <= k < l < here.len() implies (#[trigger] here[k]) < (
            #[trigger] here[l]) by {
                assert(here[k] == old[k]);
                if l < old.len() {
                    assert(old[k] < old[l]);
                } else {
                    let j = rest.index_of(old[k]);
                    assert(at[j] < at[n]);
                }
            }
        }
        assert forall|k: int| 0 <= k < at.len() && all[#[trigger] at[k]].value
            == value implies here.contains(at[k]) by {
            if k < n {
                assert(rest[k] == at[k]);
                let j = old.index_of(rest[k]);
                assert(here[j] == at[k]);
            } else {
                assert(here[here.len() - 1] == at[k]);
            }
        }
    }
}

proof fn lemma_targets_exact(all: Seq<DirectModel>, dest: Seq<char>, value: ExprModel)
    ensures
        exact(
            broadcast::storing(all, broadcast::stores_to(all, dest), value),
            all,
            dest,
            Some(value),
        ),
{
    let at = broadcast::stores_to(all, dest);
    let here = broadcast::storing(all, at, value);
    lemma_stores_exact(all, dest);
    lemma_storing(all, at, value);
    assert forall|k: int| 0 <= k < here.len() implies 0 <= (#[trigger] here[k]) < all.len()
        && all[here[k]].dest == dest && all[here[k]].value == value by {
        let j = at.index_of(here[k]);
        assert(at[j] == here[k]);
    }
    assert forall|i: int|
        0 <= i < all.len() && (#[trigger] all[i]).dest == dest && all[i].value
            == value implies here.contains(i) by {
        let j = at.index_of(i);
        assert(at[j] == i);
    }
}

/// Is the branch at a place `dest = a -> value`?
pub open spec fn stores_value(
    v: Seq<AssignmentModel>,
    at: (int, int),
    dest: Seq<char>,
    a: i64,
    value: ExprModel,
) -> bool {
    is_store_branch(v, at) && stores_at(branch_at(v, at), dest, a) && branch_at(v, at).body == value
}

proof fn lemma_stores_value(
    v: Seq<AssignmentModel>,
    at: (int, int),
    dest: Seq<char>,
    a: i64,
    value: ExprModel,
)
    requires
        stores_value(v, at, dest, a, value),
    ensures
        exists|k: int|
            0 <= k < all_places(v, false).len() && #[trigger] all_places(v, false)[k] == at
                && broadcast::all_directs(v)[k] == (DirectModel {
                dest,
                addr: a,
                owner: v[at.0].property,
                value,
            }),
{
    lemma_all_places(v, false);
    lemma_shape(branch_at(v, at));
    assert(placed(v, at, false));
    let places = all_places(v, false);
    let k = places.index_of(at);
    assert(places[k] == at);
    let d = broadcast::all_directs(v)[k];
    assert(direct_at(v, places[k], d));
    assert(stores_at(branch_at(v, at), d.dest, d.addr));
}

/// Every address of a broadcast write leads to the property of the last branch
/// `dest = a -> value` with the destination and the value of the write.
pub proof fn law_target_has_a_branch(v: Seq<AssignmentModel>, i: int, a: i64)
    requires
        0 <= i < broadcast::broadcast_writes(v).len(),
        broadcast::broadcast_writes(v)[i].targets.contains_key(a),
    ensures
        ({
            let w = broadcast::broadcast_writes(v)[i];
            exists|at: (int, int)| #[trigger]
                stores_value(v, at, w.dest, a, w.value) && w.targets[a] == v[at.0].property
                    && forall|later: (int, int)| #[trigger]
                    before(at, later) ==> !stores_value(v, later, w.dest, a, w.value)
        }),
{
    let w = broadcast::broadcast_writes(v)[i];
    let all = broadcast::all_directs(v);
    let spills = broadcast::all_spills(v);
    lemma_write_is(all, spills, broadcast::dests(all), i);
    lemma_targets_exact(all, w.dest, w.value);
    lemma_all_places(v, false);
    let here = broadcast::storing(all, broadcast::stores_to(all, w.dest), w.value);
    let pairs = broadcast::target_pairs(all, here);
    let places = all_places(v, false);
    lemma_last_wins(pairs, a);
    let n = choose|n: int|
        0 <= n < pairs.len() && (#[trigger] pairs[n]).0 == a && tables::map_of(pairs)[a]
            == pairs[n].1 && forall|j: int| n < j < pairs.len() ==> (#[trigger] pairs[j]).0 != a;
    let k = here[n];
    assert(direct_at(v, places[k], all[k]));
    assert(placed(v, places[k], false));
    let at = places[k];
    assert(stores_value(v, at, w.dest, a, w.value));
    assert forall|later: (int, int)| #[trigger] before(at, later) implies !stores_value(
        v,
        later,
        w.dest,
        a,
        w.value,
    ) by {
        if stores_value(v, later, w.dest, a, w.value) {
            lemma_stores_value(v, later, w.dest, a, w.value);
            let l = choose|l: int|
                0 <= l < places.len() && #[trigger] places[l] == later && all[l] == (DirectModel {
                    dest: w.dest,
                    addr: a,
                    owner: v[later.0].property,
                    value: w.value,
                });
            if l < k {
                assert(before(places[l], places[k]));
            }
            assert(all[l].dest == w.dest);
            let m = here.index_of(l);
            if m < n {
                assert(here[m] < here[n]);
            }
            assert(pairs[m].0 == a);
        }
    }
}

/// A broadcast write loses none of the stores of its value: at the address of every
/// branch `dest = a -> value` with its destination and value it leads to a property,
/// and to that of the branch if no later branch is for the same address.
pub proof fn law_target_is_kept(v: Seq<AssignmentModel>, i: int, at: (int, int), a: i64)
    requires
        0 <= i < broadcast::broadcast_writes(v).len(),
        stores_value(
            v,
            at,
            broadcast::broadcast_writes(v)[i].dest,
            a,
            broadcast::broadcast_writes(v)[i].value,
        ),
    ensures
        ({
            let w = broadcast::broadcast_writes(v)[i];
            &&& w.targets.contains_key(a)
            &&& (forall|later: (int, int)| #[trigger]
                before(at, later) ==> !stores_value(v, later, w.dest, a, w.value)) ==> w.targets[a]
                == v[at.0].property
        }),
{
    let w = broadcast::broadcast_writes(v)[i];
    let all = broadcast::all_directs(v);
    let spills = broadcast::all_spills(v);
    lemma_write_is(all, spills, broadcast::dests(all), i);
    lemma_targets_exact(all, w.dest, w.value);
    let here = broadcast::storing(all, broadcast::stores_to(all, w.dest), w.value);
    let pairs = broadcast::target_pairs(all, here);
    lemma_stores_value(v, at, w.dest, a, w.value);
    let places = all_places(v, false);
    let k = choose|k: int|
        0 <= k < places.len() && #[trigger] places[k] == at && all[k] == (DirectModel {
            dest: w.dest,
            addr: a,
            owner: v[at.0].property,
            value: w.value,
        });
    lemma_all_places(v, false);
    assert(all[k].dest == w.dest);
    let n = here.index_of(k);
    lemma_last_wins(pairs, a);
    assert(pairs[n].0 == a);
    if forall|later: (int, int)| #[trigger]
        before(at, later) ==> !stores_value(v, later, w.dest, a, w.value) {
        law_target_has_a_branch(v, i, a);
        let other = choose|other: (int, int)| #[trigger]
            stores_value(v, other, w.dest, a, w.value) && w.targets[a] == v[other.0].property
                && forall|later: (int, int)| #[trigger]
                before(other, later) ==> !stores_value(v, later, w.dest, a, w.value);
        assert(!before(at, other));
        assert(!before(other, at));
        assert(other.0 == at.0 && other.1 == at.1);
    }
}

// ---------------------------------------------------------------------------
// What is a broadcast
// ---------------------------------------------------------------------------

/// Distinct places of branches that store `value` to `dest`, at whatever address.
pub open spec fn store_places(
    v: Seq<AssignmentModel>,
    list: Seq<(int, int)>,
    dest: Seq<char>,
    value: ExprModel,
) -> bool {
    &&& list.no_duplicates()
    &&& forall|k: int|
        0 <= k < list.len() ==> is_store_branch(v, #[trigger] list[k]) && branch_at(
            v,
            list[k],
        ).body == value && exists|a: i64| #[trigger] stores_at(branch_at(v, list[k]), dest, a)
}

/// The properties of the assignments at some places.
pub open spec fn properties_at(v: Seq<AssignmentModel>, list: Seq<(int, int)>) -> Set<Seq<char>> {
    list.map_values(|x: (int, int)| v[x.0].property).to_set()
}

proof fn lemma_owners(all: Seq<DirectModel>, at: Seq<int>)
    ensures
        broadcast::owners(all, at) =~= at.map_values(|k: int| all[k].owner).to_set(),
    decreases at.len(),
{
    let f = |k: int| all[k].owner;
    if at.len() > 0 {
        let rest = at.drop_last();
        lemma_owners(all, rest);
        let whole = at.map_values(f);
        let part = rest.map_values(f);
        assert forall|p: Seq<char>| #[trigger] whole.to_set().contains(p) <==> broadcast::owners(
            all,
            at,
        ).contains(p) by {
            if whole.contains(p) {
                let k = whole.index_of(p);
                if k < rest.len() {
                    assert(part[k] == p);
                    assert(part.to_set().contains(p));
                }
            }
            if broadcast::owners(all, at).contains(p) {
                if p == all[at.last()].owner {
                    assert(whole[rest.len() as int] == p);
                } else {
                    assert(part.to_set().contains(p));
                    let k = part.index_of(p);
                    assert(whole[k] == p);
                }
            }
        }
    } else {
        assert(at.map_values(f) =~= Seq::empty());
    }
}

proof fn lemma_most(all: Seq<DirectModel>, at: Seq<int>, values: Seq<ExprModel>)
    requires
        values.len() > 0,
    ensures
        forall|i: int|
            0 <= i < values.len() ==> broadcast::storing(all, at, #[trigger] values[i]).len()
                <= broadcast::storing(
                all,
                at,
                broadcast::most_stored(all, at, values),
            ).len(),
    decreases values.len(),
{
    if values.len() > 1 {
        let rest = values.drop_last();
        lemma_most(all, at, rest);
        assert forall|i: int| 0 <= i < values.len() implies broadcast::storing(
            all,
            at,
            #[trigger] values[i],
        ).len() <= broadcast::storing(
            all,
            at,
            broadcast::most_stored(all, at, values),
        ).len() by {
            if i < rest.len() {
                assert(rest[i] == values[i]);
            } else {
                assert(values[i] == values.last());
            }
        }
    }
}

proof fn lemma_values_have(all: Seq<DirectModel>, at: Seq<int>, k: int)
    requires
        0 <= k < at.len(),
    ensures
        broadcast::values_at(all, at).contains(all[at[k]].value),
    decreases at.len(),
{
    let rest = at.drop_last();
    let old = broadcast::values_at(all, rest);
    let here = broadcast::values_at(all, at);
    if k < rest.len() {
        lemma_values_have(all, rest, k);
        let j = old.index_of(all[rest[k]].value);
        assert(here[j] == all[at[k]].value);
    } else if !old.contains(all[at.last()].value) {
        assert(here[here.len() - 1] == all[at[k]].value);
    }
}

/// A broadcast write is wide: its value goes from at least ten branches to its
/// destination, and at least half as many properties take part.
pub proof fn law_broadcast_is_wide(v: Seq<AssignmentModel>, i: int)
    requires
        0 <= i < broadcast::broadcast_writes(v).len(),
    ensures
        ({
            let w = broadcast::broadcast_writes(v)[i];
            exists|list: Seq<(int, int)>| #[trigger]
                store_places(v, list, w.dest, w.value) && list.len() >= 10 && properties_at(
                    v,
                    list,
                ).len() * 2 >= list.len()
        }),
{
    let w = broadcast::broadcast_writes(v)[i];
    let all = broadcast::all_directs(v);
    let spills = broadcast::all_spills(v);
    lemma_write_is(all, spills, broadcast::dests(all), i);
    lemma_targets_exact(all, w.dest, w.value);
    lemma_all_places(v, false);
    let here = broadcast::storing(all, broadcast::stores_to(all, w.dest), w.value);
    let places = all_places(v, false);
    let list = Seq::new(here.len(), |k: int| places[here[k]]);
    assert forall|k: int, l: int| 0 <= k < list.len() && 0 <= l < list.len() && k != l implies
        list[k] != list[l] by {
        if k < l {
            assert(here[k] < here[l]);
            assert(before(places[here[k]], places[here[l]]));
        } else {
            assert(here[l] < here[k]);
            assert(before(places[here[l]], places[here[k]]));
        }
    }
    assert forall|k: int| 0 <= k < list.len() implies is_store_branch(v, #[trigger] list[k])
        && branch_at(v, list[k]).body == w.value && exists|a: i64| #[trigger]
        stores_at(branch_at(v, list[k]), w.dest, a) by {
        let d = all[here[k]];
        assert(direct_at(v, places[here[k]], d));
        assert(placed(v, places[here[k]], false));
        assert(stores_at(branch_at(v, list[k]), w.dest, d.addr));
    }
    lemma_owners(all, here);
    assert(list.map_values(|x: (int, int)| v[x.0].property) =~= here.map_values(
        |k: int| all[k].owner,
    )) by {
        assert forall|k: int| 0 <= k < here.len() implies v[(#[trigger] list[k]).0].property
            == all[here[k]].owner by {
            assert(direct_at(v, places[here[k]], all[here[k]]));
        }
    }
    assert(store_places(v, list, w.dest, w.value));
}

/// Does a list hold all places of branches that store `value` to `dest`?
pub open spec fn all_store_places(
    v: Seq<AssignmentModel>,
    list: Seq<(int, int)>,
    dest: Seq<char>,
    value: ExprModel,
) -> bool {
    store_places(v, list, dest, value) && forall|at: (int, int), a: i64| #[trigger]
        stores_value(v, at, dest, a, value) ==> list.contains(at)
}

/// There are no more places than stores, and as many where all are listed.
proof fn lemma_count(
    v: Seq<AssignmentModel>,
    list: Seq<(int, int)>,
    dest: Seq<char>,
    value: ExprModel,
)
    requires
        store_places(v, list, dest, value),
    ensures
        ({
            let all = broadcast::all_directs(v);
            let here = broadcast::storing(all, broadcast::stores_to(all, dest), value);
            &&& list.len() <= here.len()
            &&& all_store_places(v, list, dest, value) ==> list.len() == here.len()
                && properties_at(v, list) == broadcast::owners(all, here)
        }),
{
    let all = broadcast::all_directs(v);
    let here = broadcast::storing(all, broadcast::stores_to(all, dest), value);
    let places = all_places(v, false);
    lemma_all_places(v, false);
    lemma_targets_exact(all, dest, value);
    let index = Seq::new(list.len(), |k: int| places.index_of(list[k]));
    assert forall|k: int| 0 <= k < list.len() implies 0 <= (#[trigger] index[k]) < places.len()
        && places[index[k]] == list[k] && here.contains(index[k]) by {
        let at = list[k];
        assert(is_store_branch(v, list[k]));
        let a = choose|a: i64| #[trigger] stores_at(branch_at(v, at), dest, a);
        assert(stores_value(v, at, dest, a, value));
        lemma_shape(branch_at(v, at));
        assert(placed(v, at, false));
        let j = places.index_of(at);
        assert(direct_at(v, places[j], all[j]));
        assert(stores_at(branch_at(v, at), all[j].dest, all[j].addr));
        assert(all[j].dest == dest);
    }
    assert forall|k: int, l: int| 0 <= k < index.len() && 0 <= l < index.len() && k != l implies
        index[k] != index[l] by {
        assert(list[k] != list[l]);
        assert(places[index[k]] == list[k] && places[index[l]] == list[l]);
    }
    assert(index.no_duplicates());
    assert(here.no_duplicates()) by {
        assert forall|k: int, l: int| 0 <= k < here.len() && 0 <= l < here.len() && k != l implies
            here[k] != here[l] by {
            if k < l {
                assert(here[k] < here[l]);
            } else {
                assert(here[l] < here[k]);
            }
        }
    }
    index.unique_seq_to_set();
    here.unique_seq_to_set();
    vstd::seq_lib::seq_to_set_is_finite(here);
    vstd::seq_lib::seq_to_set_is_finite(index);
    assert(index.to_set().subset_of(here.to_set())) by {
        assert forall|x: int| #[trigger] index.to_set().contains(x) implies here.to_set().contains(
            x,
        ) by {
            let k = index.index_of(x);
            assert(here.contains(index[k]));
        }
    }
    vstd::set_lib::lemma_len_subset(index.to_set(), here.to_set());
    if all_store_places(v, list, dest, value) {
        assert forall|x: int| #[trigger] here.to_set().contains(x) implies index.to_set().contains(
            x,
        ) by {
            let k = here.index_of(x);
            assert(all[here[k]].dest == dest);
            assert(direct_at(v, places[x], all[x]));
            assert(placed(v, places[x], false));
            assert(stores_value(v, places[x], dest, all[x].addr, value));
            let l = list.index_of(places[x]);
            assert(places[index[l]] == places[x]);
            if index[l] < x {
                assert(before(places[index[l]], places[x]));
            }
            if x < index[l] {
                assert(before(places[x], places[index[l]]));
            }
            assert(index[l] == x);
        }
        assert(index.to_set() =~= here.to_set());
        lemma_owners(all, here);
        let mine = list.map_values(|x: (int, int)| v[x.0].property);
        let theirs = here.map_values(|k: int| all[k].owner);
        assert forall|k: int| 0 <= k < list.len() implies (#[trigger] mine[k])
            == all[index[k]].owner by {
            assert(places[index[k]] == list[k]);
            assert(direct_at(v, places[index[k]], all[index[k]]));
        }
        assert forall|p: Seq<char>| mine.to_set().contains(p) <==> #[trigger] theirs.to_set().contains(
            p,
        ) by {
            if mine.contains(p) {
                let k = mine.index_of(p);
                assert(mine[k] == all[index[k]].owner);
                assert(here.to_set().contains(index[k])) by {
                    assert(index.to_set().contains(index[k]));
                }
                let l = here.index_of(index[k]);
                assert(theirs[l] == p);
            }
            if theirs.contains(p) {
                let l = theirs.index_of(p);
                assert(here.to_set().contains(here[l]));
                assert(index.to_set().contains(here[l]));
                let k = index.index_of(here[l]);
                assert(mine[k] == all[index[k]].owner);
                assert(mine[k] == p);
            }
        }
        assert(mine.to_set() =~= theirs.to_set());
    }
}

/// No value goes to the destination of a broadcast write from more branches than
/// the write's own.
pub proof fn law_broadcast_value_is_most_stored(
    v: Seq<AssignmentModel>,
    i: int,
    list: Seq<(int, int)>,
    other: Seq<(int, int)>,
    value: ExprModel,
)
    requires
        0 <= i < broadcast::broadcast_writes(v).len(),
        all_store_places(
            v,
            list,
            broadcast::broadcast_writes(v)[i].dest,
            broadcast::broadcast_writes(v)[i].value,
        ),
        store_places(v, other, broadcast::broadcast_writes(v)[i].dest, value),
    ensures
        other.len() <= list.len(),
{
    let w = broadcast::broadcast_writes(v)[i];
    let all = broadcast::all_directs(v);
    lemma_write_is(all, broadcast::all_spills(v), broadcast::dests(all), i);
    lemma_count(v, list, w.dest, w.value);
    lemma_count(v, other, w.dest, value);
    let at = broadcast::stores_to(all, w.dest);
    let here = broadcast::storing(all, at, value);
    if here.len() > 0 {
        lemma_storing(all, at, value);
        let k = at.index_of(here[0]);
        assert(at.contains(here[0]));
        lemma_values_have(all, at, k);
        let values = broadcast::values_at(all, at);
        lemma_most(all, at, values);
        let j = values.index_of(value);
        assert(values[j] == value);
    }
}

/// A broadcast is found: where at least ten branches store a value to a destination,
/// at least half as many properties take part, and every other value is stored there
/// by fewer, there is a write of that value to that destination.
pub proof fn law_broadcast_is_found(
    v: Seq<AssignmentModel>,
    list: Seq<(int, int)>,
    dest: Seq<char>,
    value: ExprModel,
)
    requires
        all_store_places(v, list, dest, value),
        list.len() >= 10,
        properties_at(v, list).len() * 2 >= list.len(),
        forall|other: Seq<(int, int)>, x: ExprModel| #[trigger]
            store_places(v, other, dest, x) && x != value ==> other.len() < list.len(),
    ensures
        exists|i: int|
            0 <= i < broadcast::broadcast_writes(v).len() && (
            #[trigger] broadcast::broadcast_writes(v)[i]).dest == dest
                && broadcast::broadcast_writes(v)[i].value == value,
{
    let all = broadcast::all_directs(v);
    let spills = broadcast::all_spills(v);
    let at = broadcast::stores_to(all, dest);
    let values = broadcast::values_at(all, at);
    let best = broadcast::most_stored(all, at, values);
    let here = broadcast::storing(all, at, value);
    lemma_count(v, list, dest, value);
    lemma_storing(all, at, value);
    assert(at.contains(here[0]));
    let k = at.index_of(here[0]);
    lemma_values_have(all, at, k);
    lemma_most(all, at, values);
    let j = values.index_of(value);
    assert(values[j] == value);
    if best != value {
        lemma_all_listed(v, dest, best);
        let other = choose|other: Seq<(int, int)>|
            store_places(v, other, dest, best) && other.len() == broadcast::storing(
                all,
                at,
                best,
            ).len();
        assert(false);
    }
    broadcast::lemma_dests(all);
    lemma_stores_exact(all, dest);
    assert(all[here[0]].dest == dest);
    broadcast::lemma_writes_has(all, spills, broadcast::dests(all), dest);
    let w = broadcast::write_of(all, spills, dest, value);
    let i = broadcast::broadcast_writes(v).index_of(w);
    assert(broadcast::broadcast_writes(v)[i].dest == dest);
}

/// The places of all stores of a value can be listed.
proof fn lemma_all_listed(v: Seq<AssignmentModel>, dest: Seq<char>, value: ExprModel)
    ensures
        exists|list: Seq<(int, int)>| #[trigger]
            store_places(v, list, dest, value) && list.len() == broadcast::storing(
                broadcast::all_directs(v),
                broadcast::stores_to(broadcast::all_directs(v), dest),
                value,
            ).len(),
{
    let all = broadcast::all_directs(v);
    lemma_targets_exact(all, dest, value);
    lemma_all_places(v, false);
    let here = broadcast::storing(all, broadcast::stores_to(all, dest), value);
    let places = all_places(v, false);
    let list = Seq::new(here.len(), |k: int| places[here[k]]);
    assert forall|k: int, l: int| 0 <= k < list.len() && 0 <= l < list.len() && k != l implies
        list[k] != list[l] by {
        if k < l {
            assert(here[k] < here[l]);
            assert(before(places[here[k]], places[here[l]]));
        } else {
            assert(here[l] < here[k]);
            assert(before(places[here[l]], places[here[k]]));
        }
    }
    assert forall|k: int| 0 <= k < list.len() implies is_store_branch(v, #[trigger] list[k])
        && branch_at(v, list[k]).body == value && exists|a: i64| #[trigger]
        stores_at(branch_at(v, list[k]), dest, a) by {
        let d = all[here[k]];
        assert(direct_at(v, places[here[k]], d));
        assert(placed(v, places[here[k]], false));
        assert(stores_at(branch_at(v, list[k]), dest, d.addr));
    }
    assert(store_places(v, list, dest, value));
}

/// Does a write lead from the address to the property, for this destination and
/// value?
pub open spec fn writes_to(
    w: WriteModel,
    dest: Seq<char>,
    a: i64,
    value: ExprModel,
    property: Seq<char>,
) -> bool {
    w.dest == dest && w.value == value && w.targets.contains_key(a) && w.targets[a] == property
}

/// A property is replaced entirely exactly if it has a branch `dest = a -> value`, and
/// for each of them a write leads from `a` to the property.
pub proof fn law_replaced_is_written(v: Seq<AssignmentModel>, property: Seq<char>)
    ensures
        broadcast::replaced(v, property) <==> {
            &&& exists|at: (int, int), dest: Seq<char>, a: i64|
                is_store_branch(v, at) && v[at.0].property == property && #[trigger] stores_at(
                    branch_at(v, at),
                    dest,
                    a,
                )
            &&& forall|at: (int, int), dest: Seq<char>, a: i64|
                is_store_branch(v, at) && v[at.0].property == property && #[trigger] stores_at(
                    branch_at(v, at),
                    dest,
                    a,
                ) ==> exists|i: int|
                    0 <= i < broadcast::broadcast_writes(v).len() && writes_to(
                        #[trigger] broadcast::broadcast_writes(v)[i],
                        dest,
                        a,
                        branch_at(v, at).body,
                        property,
                    )
        },
{
    let all = broadcast::all_directs(v);
    let spills = broadcast::all_spills(v);
    let writes = broadcast::broadcast_writes(v);
    let places = all_places(v, false);
    lemma_all_places(v, false);
    assert forall|k: int| 0 <= k < all.len() implies direct_at(v, places[k], #[trigger] all[k])
        && is_store_branch(v, places[k]) by {
        assert(direct_at(v, places[k], all[k]));
        assert(placed(v, places[k], false));
    }
    if broadcast::replaced(v, property) {
        let k = choose|k: int| 0 <= k < all.len() && (#[trigger] all[k]).owner == property;
        assert(stores_at(branch_at(v, places[k]), all[k].dest, all[k].addr));
        assert forall|at: (int, int), dest: Seq<char>, a: i64|
            is_store_branch(v, at) && v[at.0].property == property && #[trigger] stores_at(
                branch_at(v, at),
                dest,
                a,
            ) implies exists|i: int|
            0 <= i < writes.len() && writes_to(
                #[trigger] writes[i],
                dest,
                a,
                branch_at(v, at).body,
                property,
            ) by {
            lemma_stores_value(v, at, dest, a, branch_at(v, at).body);
            let l = choose|l: int|
                0 <= l < places.len() && #[trigger] places[l] == at && all[l] == (DirectModel {
                    dest,
                    addr: a,
                    owner: property,
                    value: branch_at(v, at).body,
                });
            broadcast::law_absorbed_is_written(v, property, l);
            let i = choose|i: int|
                0 <= i < writes.len() && ({
                    let w = #[trigger] writes[i];
                    &&& w.dest == all[l].dest
                    &&& w.value == all[l].value
                    &&& w.targets.contains_key(all[l].addr)
                    &&& w.targets[all[l].addr] == property
                });
            assert(writes_to(writes[i], dest, a, branch_at(v, at).body, property));
        }
    } else if exists|at: (int, int), dest: Seq<char>, a: i64|
        is_store_branch(v, at) && v[at.0].property == property && #[trigger] stores_at(
            branch_at(v, at),
            dest,
            a,
        ) {
        let (at, dest, a) = choose|at: (int, int), dest: Seq<char>, a: i64|
            is_store_branch(v, at) && v[at.0].property == property && #[trigger] stores_at(
                branch_at(v, at),
                dest,
                a,
            );
        lemma_stores_value(v, at, dest, a, branch_at(v, at).body);
        let first = choose|l: int|
            0 <= l < places.len() && #[trigger] places[l] == at && all[l] == (DirectModel {
                dest,
                addr: a,
                owner: property,
                value: branch_at(v, at).body,
            });
        assert(all[first].owner == property);
        let k = choose|k: int|
            0 <= k < all.len() && (#[trigger] all[k]).owner == property && !broadcast::is_written(
                all,
                k,
            );
        let d = all[k];
        assert(stores_at(branch_at(v, places[k]), d.dest, d.addr));
        if exists|i: int|
            0 <= i < writes.len() && writes_to(
                #[trigger] writes[i],
                d.dest,
                d.addr,
                branch_at(v, places[k]).body,
                property,
            ) {
            let i = choose|i: int|
                0 <= i < writes.len() && writes_to(
                    #[trigger] writes[i],
                    d.dest,
                    d.addr,
                    branch_at(v, places[k]).body,
                    property,
                );
            lemma_write_is(all, spills, broadcast::dests(all), i);
            assert(broadcast::is_written(all, k));
        }
    }
}

} // verus!
